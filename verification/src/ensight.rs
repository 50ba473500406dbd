//! EnSight Gold: the case file, element types, structured blocks, and the C-binary record
//! layout of geometry files.
use vstd::prelude::*;

use crate::cgns::{grid_nodes, layers};
use crate::error::{parse_error, IoError};
use crate::mesh::{cell_triangles, cells_sized, grid_cells, lemma_grid_cells, push_cell, row_cells, shape_nodes, CellShape};
use crate::tecplot::texts;
use crate::text::{chars_of, decimal, decimal_string, padded_decimal, starts, starts_with, trim, words};

verus! {

/// The element type keywords of EnSight Gold, with their node counts (0 for the polygon and
/// polyhedron types, whose node counts vary).
pub open spec fn element_nodes(s: Seq<char>) -> Option<nat> {
    if s == "point"@ {
        Some(1)
    } else if s == "bar2"@ {
        Some(2)
    } else if s == "bar3"@ {
        Some(3)
    } else if s == "tria3"@ {
        Some(3)
    } else if s == "tria6"@ {
        Some(6)
    } else if s == "quad4"@ {
        Some(4)
    } else if s == "quad8"@ {
        Some(8)
    } else if s == "tetra4"@ {
        Some(4)
    } else if s == "tetra10"@ {
        Some(10)
    } else if s == "pyramid5"@ {
        Some(5)
    } else if s == "pyramid13"@ {
        Some(13)
    } else if s == "penta6"@ {
        Some(6)
    } else if s == "penta15"@ {
        Some(15)
    } else if s == "hexa8"@ {
        Some(8)
    } else if s == "hexa20"@ {
        Some(20)
    } else if s == "nsided"@ || s == "nfaced"@ {
        Some(0)
    } else {
        None
    }
}

/// The surface shape of an element type: the quadratic types are triangulated through their
/// corner nodes; points, bars and the variable types have none.
pub open spec fn element_shape(s: Seq<char>) -> Option<CellShape> {
    if s == "tria3"@ || s == "tria6"@ {
        Some(CellShape::Tri)
    } else if s == "quad4"@ || s == "quad8"@ {
        Some(CellShape::Quad)
    } else if s == "tetra4"@ || s == "tetra10"@ {
        Some(CellShape::Tet)
    } else if s == "pyramid5"@ || s == "pyramid13"@ {
        Some(CellShape::Pyramid)
    } else if s == "penta6"@ || s == "penta15"@ {
        Some(CellShape::Wedge)
    } else if s == "hexa8"@ || s == "hexa20"@ {
        Some(CellShape::Hex)
    } else {
        None
    }
}

fn is_word(s: &[char], kw: &str) -> (r: bool)
    ensures
        r == (s@ == kw@),
{
    let n = s.len();
    assert(s@.subrange(0, n as int) =~= s@);
    crate::text::range_is(s, 0, n, kw)
}

/// Whether `s` is an EnSight Gold element type keyword.
pub fn is_element_type(s: &str) -> (r: bool)
    ensures
        r == element_nodes(s@) is Some,
{
    let cs = chars_of(s);
    let c = cs.as_slice();
    is_word(c, "point") || is_word(c, "bar2") || is_word(c, "bar3") || is_word(c, "tria3") || is_word(
        c,
        "tria6",
    ) || is_word(c, "quad4") || is_word(c, "quad8") || is_word(c, "tetra4") || is_word(c, "tetra10")
        || is_word(c, "pyramid5") || is_word(c, "pyramid13") || is_word(c, "penta6") || is_word(
        c,
        "penta15",
    ) || is_word(c, "hexa8") || is_word(c, "hexa20") || is_word(c, "nsided") || is_word(c, "nfaced")
}

/// The node count of an element type: 0 for the variable types and for unknown names.
pub fn nodes_per_element(elem_type: &str) -> (n: usize)
    ensures
        n == match element_nodes(elem_type@) {
            Some(k) => k,
            None => 0,
        },
{
    let cs = chars_of(elem_type);
    let c = cs.as_slice();
    if is_word(c, "point") {
        1
    } else if is_word(c, "bar2") {
        2
    } else if is_word(c, "bar3") {
        3
    } else if is_word(c, "tria3") {
        3
    } else if is_word(c, "tria6") {
        6
    } else if is_word(c, "quad4") {
        4
    } else if is_word(c, "quad8") {
        8
    } else if is_word(c, "tetra4") {
        4
    } else if is_word(c, "tetra10") {
        10
    } else if is_word(c, "pyramid5") {
        5
    } else if is_word(c, "pyramid13") {
        13
    } else if is_word(c, "penta6") {
        6
    } else if is_word(c, "penta15") {
        15
    } else if is_word(c, "hexa8") {
        8
    } else if is_word(c, "hexa20") {
        20
    } else {
        0
    }
}

fn shape_of_element(elem_type: &str) -> (r: Option<CellShape>)
    ensures
        r == element_shape(elem_type@),
{
    let cs = chars_of(elem_type);
    let c = cs.as_slice();
    if is_word(c, "tria3") || is_word(c, "tria6") {
        Some(CellShape::Tri)
    } else if is_word(c, "quad4") || is_word(c, "quad8") {
        Some(CellShape::Quad)
    } else if is_word(c, "tetra4") || is_word(c, "tetra10") {
        Some(CellShape::Tet)
    } else if is_word(c, "pyramid5") || is_word(c, "pyramid13") {
        Some(CellShape::Pyramid)
    } else if is_word(c, "penta6") || is_word(c, "penta15") {
        Some(CellShape::Wedge)
    } else if is_word(c, "hexa8") || is_word(c, "hexa20") {
        Some(CellShape::Hex)
    } else {
        None
    }
}

/// An element type with a surface shape has at least that shape's corner nodes.
pub proof fn lemma_shape_nodes(s: Seq<char>)
    ensures
        element_shape(s) matches Some(c) ==> element_nodes(s) matches Some(k) && k >= shape_nodes(c),
{
    reveal_strlit("point");
    assert("point"@.len() == 5);
    reveal_strlit("bar2");
    assert("bar2"@.len() == 4);
    reveal_strlit("bar3");
    assert("bar3"@.len() == 4);
    reveal_strlit("tria3");
    assert("tria3"@.len() == 5);
    reveal_strlit("tria6");
    assert("tria6"@.len() == 5);
    reveal_strlit("quad4");
    assert("quad4"@.len() == 5);
    reveal_strlit("quad8");
    assert("quad8"@.len() == 5);
    reveal_strlit("tetra4");
    assert("tetra4"@.len() == 6);
    reveal_strlit("tetra10");
    assert("tetra10"@.len() == 7);
    reveal_strlit("pyramid5");
    assert("pyramid5"@.len() == 8);
    reveal_strlit("pyramid13");
    assert("pyramid13"@.len() == 9);
    reveal_strlit("penta6");
    assert("penta6"@.len() == 6);
    reveal_strlit("penta15");
    assert("penta15"@.len() == 7);
    reveal_strlit("hexa8");
    assert("hexa8"@.len() == 5);
    reveal_strlit("hexa20");
    assert("hexa20"@.len() == 6);
    reveal_strlit("nsided");
    assert("nsided"@.len() == 6);
    reveal_strlit("nfaced");
    assert("nfaced"@.len() == 6);
    assert("point"@[0] != "tria3"@[0]);
    assert("point"@[0] != "tria6"@[0]);
    assert("point"@[0] != "quad4"@[0]);
    assert("point"@[0] != "quad8"@[0]);
    assert("point"@[0] != "hexa8"@[0]);
    assert("bar2"@[3] != "bar3"@[3]);
    assert("tria3"@[4] != "tria6"@[4]);
    assert("tria3"@[0] != "quad4"@[0]);
    assert("tria3"@[0] != "quad8"@[0]);
    assert("tria3"@[0] != "hexa8"@[0]);
    assert("tria6"@[0] != "quad4"@[0]);
    assert("tria6"@[0] != "quad8"@[0]);
    assert("tria6"@[0] != "hexa8"@[0]);
    assert("quad4"@[4] != "quad8"@[4]);
    assert("quad4"@[0] != "hexa8"@[0]);
    assert("quad8"@[0] != "hexa8"@[0]);
    assert("tetra4"@[0] != "penta6"@[0]);
    assert("tetra4"@[0] != "hexa20"@[0]);
    assert("tetra4"@[0] != "nsided"@[0]);
    assert("tetra4"@[0] != "nfaced"@[0]);
    assert("tetra10"@[0] != "penta15"@[0]);
    assert("penta6"@[0] != "hexa20"@[0]);
    assert("penta6"@[0] != "nsided"@[0]);
    assert("penta6"@[0] != "nfaced"@[0]);
    assert("hexa20"@[0] != "nsided"@[0]);
    assert("hexa20"@[0] != "nfaced"@[0]);
    assert("nsided"@[1] != "nfaced"@[1]);
}

/// The triangles of one element of type `s` with 0-based node indices `nodes`.
pub open spec fn element_triangles(s: Seq<char>, nodes: Seq<u32>) -> Seq<u32> {
    match element_shape(s) {
        Some(c) => cell_triangles(c, nodes),
        None => Seq::empty(),
    }
}

/// Appends the triangles of one element of type `elem_type` whose 0-based node indices are
/// `nodes`.
pub fn triangulate_ensight(elem_type: &str, nodes: &[u32], out: &mut Vec<u32>)
    requires
        element_shape(elem_type@) matches Some(c) ==> nodes@.len() >= shape_nodes(c),
    ensures
        final(out)@ == old(out)@ + element_triangles(elem_type@, nodes@),
{
    match shape_of_element(elem_type) {
        Some(c) => push_cell(c, nodes, out),
        None => {
            assert(old(out)@ + Seq::<u32>::empty() =~= old(out)@);
        },
    }
}

/// Index of point `(i, j, k)` of a block with `ni` points along i and `nj` along j, as the
/// decoder stores it: truncated to 32 bits.
pub open spec fn point_at(ni: int, nj: int, i: int, j: int, k: int) -> u32 {
    (i + j * ni + k * ni * nj) as u32
}

/// The two triangles `a b c`, `a c d` of the quad `a b c d`.
pub open spec fn quad_fan(a: u32, b: u32, c: u32, d: u32) -> Seq<u32> {
    seq![a, b, c, a, c, d]
}

/// The k planes a block's surface takes its k faces from: plane 0, and the last plane
/// when there is more than one.
pub open spec fn face_planes(n: int) -> Seq<int> {
    if n <= 1 {
        seq![0]
    } else {
        seq![0, n - 1]
    }
}

/// Cell `(j, i)` of the k face at plane `k`.
pub open spec fn k_cell(ni: int, nj: int, k: int) -> spec_fn(int, int) -> Seq<u32> {
    |j: int, i: int|
        quad_fan(
            point_at(ni, nj, i, j, k),
            point_at(ni, nj, i + 1, j, k),
            point_at(ni, nj, i + 1, j + 1, k),
            point_at(ni, nj, i, j + 1, k),
        )
}

/// Cell `(k, i)` of the j face at plane `j`.
pub open spec fn j_cell(ni: int, nj: int, j: int) -> spec_fn(int, int) -> Seq<u32> {
    |k: int, i: int|
        quad_fan(
            point_at(ni, nj, i, j, k),
            point_at(ni, nj, i + 1, j, k),
            point_at(ni, nj, i + 1, j, k + 1),
            point_at(ni, nj, i, j, k + 1),
        )
}

/// Cell `(k, j)` of the i face at plane `i`.
pub open spec fn i_cell(ni: int, nj: int, i: int) -> spec_fn(int, int) -> Seq<u32> {
    |k: int, j: int|
        quad_fan(
            point_at(ni, nj, i, j, k),
            point_at(ni, nj, i, j + 1, k),
            point_at(ni, nj, i, j + 1, k + 1),
            point_at(ni, nj, i, j, k + 1),
        )
}

/// One less than `n`, but not below 0.
pub open spec fn steps(n: int) -> nat {
    if n <= 1 {
        0
    } else {
        (n - 1) as nat
    }
}

/// The k faces at the planes `ks[0..m]`.
pub open spec fn k_faces(ni: int, nj: int, ks: Seq<int>, m: nat) -> Seq<u32>
    decreases m,
{
    if m == 0 {
        Seq::empty()
    } else {
        k_faces(ni, nj, ks, (m - 1) as nat) + grid_cells(k_cell(ni, nj, ks[m - 1]), steps(nj), steps(ni))
    }
}

/// The j faces at the planes `js[0..m]`.
pub open spec fn j_faces(ni: int, nj: int, nk: int, js: Seq<int>, m: nat) -> Seq<u32>
    decreases m,
{
    if m == 0 {
        Seq::empty()
    } else {
        j_faces(ni, nj, nk, js, (m - 1) as nat) + grid_cells(j_cell(ni, nj, js[m - 1]), steps(nk), steps(ni))
    }
}

/// The i faces at the planes `is[0..m]`.
pub open spec fn i_faces(ni: int, nj: int, nk: int, is: Seq<int>, m: nat) -> Seq<u32>
    decreases m,
{
    if m == 0 {
        Seq::empty()
    } else {
        i_faces(ni, nj, nk, is, (m - 1) as nat) + grid_cells(i_cell(ni, nj, is[m - 1]), steps(nk), steps(nj))
    }
}

/// The boundary triangles of a block of `ni` by `nj` by `nk` points: its k faces, then its
/// j faces, then its i faces; a face direction with a single plane contributes that plane
/// once.
pub open spec fn block_surface(ni: int, nj: int, nk: int) -> Seq<u32> {
    k_faces(ni, nj, face_planes(nk), face_planes(nk).len()) + j_faces(
        ni,
        nj,
        nk,
        face_planes(nj),
        face_planes(nj).len(),
    ) + i_faces(ni, nj, nk, face_planes(ni), face_planes(ni).len())
}

proof fn lemma_point_fits(ni: int, nj: int, nk: int, i: int, j: int, k: int)
    requires
        0 <= i < layers(ni),
        0 <= j < layers(nj),
        0 <= k < layers(nk),
        ni >= 0,
        nj >= 0,
        nk >= 0,
        grid_nodes(ni, nj, nk) <= usize::MAX,
    ensures
        0 <= j * ni,
        0 <= k * ni * nj,
        k * ni <= k * ni * nj || nj == 0,
        j * ni <= usize::MAX,
        k * ni <= usize::MAX,
        i + j * ni + k * ni * nj < grid_nodes(ni, nj, nk),
{
    let (a, b, c) = (layers(ni), layers(nj), layers(nk));
    assert(0 <= j * ni <= j * a) by (nonlinear_arith)
        requires
            0 <= j,
            0 <= ni <= a,
    ;
    assert(0 <= k * ni * nj <= k * a * b) by (nonlinear_arith)
        requires
            0 <= k,
            0 <= ni <= a,
            0 <= nj <= b,
    ;
    assert(k * ni <= k * ni * nj || nj == 0) by (nonlinear_arith)
        requires
            0 <= k,
            0 <= ni,
            0 <= nj,
    ;
    assert(i + j * a < a * b) by (nonlinear_arith)
        requires
            0 <= i < a,
            0 <= j < b,
    ;
    assert(i + j * a + k * a * b < a * b * c) by (nonlinear_arith)
        requires
            i + j * a < a * b,
            0 <= k < c,
            1 <= a,
            1 <= b,
    ;
    assert(k * ni <= k * a * b) by (nonlinear_arith)
        requires
            0 <= k,
            0 <= ni <= a,
            1 <= b,
    ;
    assert(k * a * b <= a * b * c) by (nonlinear_arith)
        requires
            0 <= k < c,
            1 <= a,
            1 <= b,
    ;
    assert(j * a <= a * b * c) by (nonlinear_arith)
        requires
            0 <= j < b,
            1 <= a,
            1 <= c,
    ;
}

fn point_index(ni: usize, nj: usize, nk: usize, i: usize, j: usize, k: usize) -> (r: u32)
    requires
        i < layers(ni as int),
        j < layers(nj as int),
        k < layers(nk as int),
        grid_nodes(ni as int, nj as int, nk as int) <= usize::MAX,
    ensures
        r == point_at(ni as int, nj as int, i as int, j as int, k as int),
{
    proof {
        lemma_point_fits(ni as int, nj as int, nk as int, i as int, j as int, k as int);
    }
    (i + j * ni + k * ni * nj) as u32
}

fn push_fan(out: &mut Vec<u32>, a: u32, b: u32, c: u32, d: u32)
    ensures
        final(out)@ == old(out)@ + quad_fan(a, b, c, d),
{
    out.push(a);
    out.push(b);
    out.push(c);
    out.push(a);
    out.push(c);
    out.push(d);
    assert(out@ =~= old(out)@ + quad_fan(a, b, c, d));
}

fn planes(n: usize) -> (r: Vec<usize>)
    ensures
        r@.len() == face_planes(n as int).len(),
        forall|t: int| 0 <= t < r@.len() ==> (#[trigger] r@[t]) as int == face_planes(n as int)[t],
        forall|t: int| 0 <= t < r@.len() ==> (#[trigger] r@[t]) < layers(n as int),
{
    if n <= 1 {
        vec![0]
    } else {
        vec![0, n - 1]
    }
}

/// The boundary triangles of a structured block of `ni` by `nj` by `nk` points, point
/// `(i, j, k)` being number `i + j * ni + k * ni * nj` (see [`block_surface`]).
pub fn structured_surface_indices(ni: usize, nj: usize, nk: usize) -> (r: Vec<u32>)
    requires
        grid_nodes(ni as int, nj as int, nk as int) <= usize::MAX,
    ensures
        r@ == block_surface(ni as int, nj as int, nk as int),
{
    let mut out: Vec<u32> = Vec::new();
    let ks = planes(nk);
    let ghost ksv = face_planes(nk as int);
    let mut f: usize = 0;
    while f < ks.len()
        invariant
            grid_nodes(ni as int, nj as int, nk as int) <= usize::MAX,
            f <= ks@.len(),
            ks@.len() == ksv.len(),
            ksv == face_planes(nk as int),
            forall|t: int| 0 <= t < ks@.len() ==> (#[trigger] ks@[t]) as int == ksv[t] && ks@[t] < layers(nk as int),
            out@ == k_faces(ni as int, nj as int, ksv, f as nat),
        decreases ks@.len() - f,
    {
        let k = ks[f];
        assert(ks@[f as int] < layers(nk as int));
        let ghost cell = k_cell(ni as int, nj as int, k as int);
        let ghost base = out@;
        let mut j: usize = 0;
        while j + 1 < nj
            invariant
                grid_nodes(ni as int, nj as int, nk as int) <= usize::MAX,
                k < layers(nk as int),
                j <= steps(nj as int),
                cell == k_cell(ni as int, nj as int, k as int),
                out@ == base + grid_cells(cell, j as nat, steps(ni as int)),
            decreases nj - j,
        {
            let mut i: usize = 0;
            while i + 1 < ni
                invariant
                    grid_nodes(ni as int, nj as int, nk as int) <= usize::MAX,
                    k < layers(nk as int),
                    j + 1 < nj,
                    i <= steps(ni as int),
                    cell == k_cell(ni as int, nj as int, k as int),
                    out@ == base + grid_cells(cell, j as nat, steps(ni as int)) + row_cells(cell, j as int, i as nat),
                decreases ni - i,
            {
                let a = point_index(ni, nj, nk, i, j, k);
                let b = point_index(ni, nj, nk, i + 1, j, k);
                let c = point_index(ni, nj, nk, i + 1, j + 1, k);
                let d = point_index(ni, nj, nk, i, j + 1, k);
                let ghost before = out@;
                push_fan(&mut out, a, b, c, d);
                assert(out@ =~= before + cell(j as int, i as int));
                i = i + 1;
            }
            j = j + 1;
        }
        assert(out@ == k_faces(ni as int, nj as int, ksv, (f + 1) as nat));
        f = f + 1;
    }
    let ghost kpart = out@;
    let js = planes(nj);
    let ghost jsv = face_planes(nj as int);
    let mut f: usize = 0;
    while f < js.len()
        invariant
            grid_nodes(ni as int, nj as int, nk as int) <= usize::MAX,
            f <= js@.len(),
            js@.len() == jsv.len(),
            jsv == face_planes(nj as int),
            forall|t: int| 0 <= t < js@.len() ==> (#[trigger] js@[t]) as int == jsv[t] && js@[t] < layers(nj as int),
            out@ == kpart + j_faces(ni as int, nj as int, nk as int, jsv, f as nat),
        decreases js@.len() - f,
    {
        let j = js[f];
        assert(js@[f as int] < layers(nj as int));
        let ghost cell = j_cell(ni as int, nj as int, j as int);
        let ghost base = out@;
        let mut k: usize = 0;
        while k + 1 < nk
            invariant
                grid_nodes(ni as int, nj as int, nk as int) <= usize::MAX,
                j < layers(nj as int),
                k <= steps(nk as int),
                cell == j_cell(ni as int, nj as int, j as int),
                out@ == base + grid_cells(cell, k as nat, steps(ni as int)),
            decreases nk - k,
        {
            let mut i: usize = 0;
            while i + 1 < ni
                invariant
                    grid_nodes(ni as int, nj as int, nk as int) <= usize::MAX,
                    j < layers(nj as int),
                    k + 1 < nk,
                    i <= steps(ni as int),
                    cell == j_cell(ni as int, nj as int, j as int),
                    out@ == base + grid_cells(cell, k as nat, steps(ni as int)) + row_cells(cell, k as int, i as nat),
                decreases ni - i,
            {
                let a = point_index(ni, nj, nk, i, j, k);
                let b = point_index(ni, nj, nk, i + 1, j, k);
                let c = point_index(ni, nj, nk, i + 1, j, k + 1);
                let d = point_index(ni, nj, nk, i, j, k + 1);
                let ghost before = out@;
                push_fan(&mut out, a, b, c, d);
                assert(out@ =~= before + cell(k as int, i as int));
                i = i + 1;
            }
            k = k + 1;
        }
        assert(out@ =~= kpart + j_faces(ni as int, nj as int, nk as int, jsv, (f + 1) as nat));
        f = f + 1;
    }
    let ghost jpart = out@;
    let is = planes(ni);
    let ghost isv = face_planes(ni as int);
    let mut f: usize = 0;
    while f < is.len()
        invariant
            grid_nodes(ni as int, nj as int, nk as int) <= usize::MAX,
            f <= is@.len(),
            is@.len() == isv.len(),
            isv == face_planes(ni as int),
            forall|t: int| 0 <= t < is@.len() ==> (#[trigger] is@[t]) as int == isv[t] && is@[t] < layers(ni as int),
            out@ == jpart + i_faces(ni as int, nj as int, nk as int, isv, f as nat),
        decreases is@.len() - f,
    {
        let i = is[f];
        assert(is@[f as int] < layers(ni as int));
        let ghost cell = i_cell(ni as int, nj as int, i as int);
        let ghost base = out@;
        let mut k: usize = 0;
        while k + 1 < nk
            invariant
                grid_nodes(ni as int, nj as int, nk as int) <= usize::MAX,
                i < layers(ni as int),
                k <= steps(nk as int),
                cell == i_cell(ni as int, nj as int, i as int),
                out@ == base + grid_cells(cell, k as nat, steps(nj as int)),
            decreases nk - k,
        {
            let mut j: usize = 0;
            while j + 1 < nj
                invariant
                    grid_nodes(ni as int, nj as int, nk as int) <= usize::MAX,
                    i < layers(ni as int),
                    k + 1 < nk,
                    j <= steps(nj as int),
                    cell == i_cell(ni as int, nj as int, i as int),
                    out@ == base + grid_cells(cell, k as nat, steps(nj as int)) + row_cells(cell, k as int, j as nat),
                decreases nj - j,
            {
                let a = point_index(ni, nj, nk, i, j, k);
                let b = point_index(ni, nj, nk, i, j + 1, k);
                let c = point_index(ni, nj, nk, i, j + 1, k + 1);
                let d = point_index(ni, nj, nk, i, j, k + 1);
                let ghost before = out@;
                push_fan(&mut out, a, b, c, d);
                assert(out@ =~= before + cell(k as int, j as int));
                j = j + 1;
            }
            k = k + 1;
        }
        assert(out@ =~= jpart + i_faces(ni as int, nj as int, nk as int, isv, (f + 1) as nat));
        f = f + 1;
    }
    out
}

proof fn lemma_point_below(ni: int, nj: int, nk: int, i: int, j: int, k: int)
    requires
        0 <= i < layers(ni),
        0 <= j < layers(nj),
        0 <= k < layers(nk),
        ni >= 0,
        nj >= 0,
        nk >= 0,
        grid_nodes(ni, nj, nk) <= u32::MAX + 1,
    ensures
        (point_at(ni, nj, i, j, k) as int) < grid_nodes(ni, nj, nk),
{
    let (a, b, c) = (layers(ni), layers(nj), layers(nk));
    assert(0 <= j * ni <= j * a) by (nonlinear_arith)
        requires
            0 <= j,
            0 <= ni <= a,
    ;
    assert(0 <= k * ni * nj <= k * a * b) by (nonlinear_arith)
        requires
            0 <= k,
            0 <= ni <= a,
            0 <= nj <= b,
    ;
    assert(i + j * a < a * b) by (nonlinear_arith)
        requires
            0 <= i < a,
            0 <= j < b,
    ;
    assert(i + j * a + k * a * b < a * b * c) by (nonlinear_arith)
        requires
            i + j * a < a * b,
            0 <= k < c,
            1 <= a,
            1 <= b,
    ;
}

/// A concatenation of two index runs stays below `bound` when both runs do.
proof fn lemma_faces_below(
    faces: Seq<u32>,
    prev: Seq<u32>,
    cells: Seq<u32>,
    bound: int,
)
    requires
        faces == prev + cells,
        forall|t: int| 0 <= t < prev.len() ==> #[trigger] prev[t] < bound,
        forall|t: int| 0 <= t < cells.len() ==> #[trigger] cells[t] < bound,
    ensures
        forall|t: int| 0 <= t < faces.len() ==> #[trigger] faces[t] < bound,
{
    assert forall|t: int| 0 <= t < faces.len() implies #[trigger] faces[t] < bound by {
        if t < prev.len() {
            assert(faces[t] == prev[t]);
        } else {
            assert(faces[t] == cells[t - prev.len()]);
        }
    }
}

proof fn lemma_k_faces_below(ni: int, nj: int, nk: int, ks: Seq<int>, m: nat)
    requires
        ni >= 0,
        nj >= 0,
        nk >= 0,
        grid_nodes(ni, nj, nk) <= u32::MAX + 1,
        m <= ks.len(),
        forall|x: int| 0 <= x < ks.len() ==> 0 <= #[trigger] ks[x] < layers(nk),
    ensures
        forall|t: int| 0 <= t < k_faces(ni, nj, ks, m).len() ==> #[trigger] k_faces(ni, nj, ks, m)[t]
            < grid_nodes(ni, nj, nk),
    decreases m,
{
    if m > 0 {
        lemma_k_faces_below(ni, nj, nk, ks, (m - 1) as nat);
        let bound = grid_nodes(ni, nj, nk);
        let k = ks[m - 1];
        let cell = k_cell(ni, nj, k);
        assert forall|r: int, c: int, t: int|
            0 <= r < steps(nj) && 0 <= c < steps(ni) && 0 <= t < cell(r, c).len() implies #[trigger] cell(r, c)[t]
                < bound by {
            lemma_point_below(ni, nj, nk, c, r, k);
            lemma_point_below(ni, nj, nk, c + 1, r, k);
            lemma_point_below(ni, nj, nk, c + 1, r + 1, k);
            lemma_point_below(ni, nj, nk, c, r + 1, k);
        }
        lemma_grid_cells(cell, steps(nj), steps(ni), 6, bound);
        lemma_faces_below(
            k_faces(ni, nj, ks, m),
            k_faces(ni, nj, ks, (m - 1) as nat),
            grid_cells(cell, steps(nj), steps(ni)),
            bound,
        );
    }
}

proof fn lemma_j_faces_below(ni: int, nj: int, nk: int, js: Seq<int>, m: nat)
    requires
        ni >= 0,
        nj >= 0,
        nk >= 0,
        grid_nodes(ni, nj, nk) <= u32::MAX + 1,
        m <= js.len(),
        forall|x: int| 0 <= x < js.len() ==> 0 <= #[trigger] js[x] < layers(nj),
    ensures
        forall|t: int| 0 <= t < j_faces(ni, nj, nk, js, m).len() ==> #[trigger] j_faces(ni, nj, nk, js, m)[t]
            < grid_nodes(ni, nj, nk),
    decreases m,
{
    if m > 0 {
        lemma_j_faces_below(ni, nj, nk, js, (m - 1) as nat);
        let bound = grid_nodes(ni, nj, nk);
        let j = js[m - 1];
        let cell = j_cell(ni, nj, j);
        assert forall|r: int, c: int, t: int|
            0 <= r < steps(nk) && 0 <= c < steps(ni) && 0 <= t < cell(r, c).len() implies #[trigger] cell(r, c)[t]
                < bound by {
            lemma_point_below(ni, nj, nk, c, j, r);
            lemma_point_below(ni, nj, nk, c + 1, j, r);
            lemma_point_below(ni, nj, nk, c + 1, j, r + 1);
            lemma_point_below(ni, nj, nk, c, j, r + 1);
        }
        lemma_grid_cells(cell, steps(nk), steps(ni), 6, bound);
        lemma_faces_below(
            j_faces(ni, nj, nk, js, m),
            j_faces(ni, nj, nk, js, (m - 1) as nat),
            grid_cells(cell, steps(nk), steps(ni)),
            bound,
        );
    }
}

proof fn lemma_i_faces_below(ni: int, nj: int, nk: int, is: Seq<int>, m: nat)
    requires
        ni >= 0,
        nj >= 0,
        nk >= 0,
        grid_nodes(ni, nj, nk) <= u32::MAX + 1,
        m <= is.len(),
        forall|x: int| 0 <= x < is.len() ==> 0 <= #[trigger] is[x] < layers(ni),
    ensures
        forall|t: int| 0 <= t < i_faces(ni, nj, nk, is, m).len() ==> #[trigger] i_faces(ni, nj, nk, is, m)[t]
            < grid_nodes(ni, nj, nk),
    decreases m,
{
    if m > 0 {
        lemma_i_faces_below(ni, nj, nk, is, (m - 1) as nat);
        let bound = grid_nodes(ni, nj, nk);
        let i = is[m - 1];
        let cell = i_cell(ni, nj, i);
        assert forall|r: int, c: int, t: int|
            0 <= r < steps(nk) && 0 <= c < steps(nj) && 0 <= t < cell(r, c).len() implies #[trigger] cell(r, c)[t]
                < bound by {
            lemma_point_below(ni, nj, nk, i, c, r);
            lemma_point_below(ni, nj, nk, i, c + 1, r);
            lemma_point_below(ni, nj, nk, i, c + 1, r + 1);
            lemma_point_below(ni, nj, nk, i, c, r + 1);
        }
        lemma_grid_cells(cell, steps(nk), steps(nj), 6, bound);
        lemma_faces_below(
            i_faces(ni, nj, nk, is, m),
            i_faces(ni, nj, nk, is, (m - 1) as nat),
            grid_cells(cell, steps(nk), steps(nj)),
            bound,
        );
    }
}

/// Every index of a block's boundary triangles names one of its points, when the point count
/// fits the 32-bit indices.
pub proof fn lemma_block_surface_in_range(ni: int, nj: int, nk: int)
    requires
        ni >= 0,
        nj >= 0,
        nk >= 0,
        grid_nodes(ni, nj, nk) <= u32::MAX + 1,
    ensures
        forall|t: int|
            0 <= t < block_surface(ni, nj, nk).len() ==> #[trigger] block_surface(ni, nj, nk)[t]
                < grid_nodes(ni, nj, nk),
{
    let bound = grid_nodes(ni, nj, nk);
    let (ks, js, is) = (face_planes(nk), face_planes(nj), face_planes(ni));
    lemma_k_faces_below(ni, nj, nk, ks, ks.len());
    lemma_j_faces_below(ni, nj, nk, js, js.len());
    lemma_i_faces_below(ni, nj, nk, is, is.len());
    let kf = k_faces(ni, nj, ks, ks.len());
    let jf = j_faces(ni, nj, nk, js, js.len());
    let ifs = i_faces(ni, nj, nk, is, is.len());
    lemma_faces_below(kf + jf, kf, jf, bound);
    lemma_faces_below(kf + jf + ifs, kf + jf, ifs, bound);
}

proof fn lemma_k_faces_len(ni: int, nj: int, ks: Seq<int>, m: nat)
    requires
        m <= ks.len(),
    ensures
        k_faces(ni, nj, ks, m).len() == m * (steps(nj) * steps(ni) * 6),
    decreases m,
{
    if m > 0 {
        lemma_k_faces_len(ni, nj, ks, (m - 1) as nat);
        let cell = k_cell(ni, nj, ks[m - 1]);
        assert(cells_sized(cell, steps(nj), steps(ni), 6));
        lemma_grid_cells(cell, steps(nj), steps(ni), 6, 0);
        assert(m * (steps(nj) * steps(ni) * 6) == (m - 1) * (steps(nj) * steps(ni) * 6) + steps(nj) * steps(ni)
            * 6) by (nonlinear_arith)
            requires
                m > 0,
        ;
    } else {
        assert(m * (steps(nj) * steps(ni) * 6) == 0) by (nonlinear_arith)
            requires
                m == 0,
        ;
    }
}

proof fn lemma_j_faces_len(ni: int, nj: int, nk: int, js: Seq<int>, m: nat)
    requires
        m <= js.len(),
    ensures
        j_faces(ni, nj, nk, js, m).len() == m * (steps(nk) * steps(ni) * 6),
    decreases m,
{
    if m > 0 {
        lemma_j_faces_len(ni, nj, nk, js, (m - 1) as nat);
        let cell = j_cell(ni, nj, js[m - 1]);
        assert(cells_sized(cell, steps(nk), steps(ni), 6));
        lemma_grid_cells(cell, steps(nk), steps(ni), 6, 0);
        assert(m * (steps(nk) * steps(ni) * 6) == (m - 1) * (steps(nk) * steps(ni) * 6) + steps(nk) * steps(ni)
            * 6) by (nonlinear_arith)
            requires
                m > 0,
        ;
    } else {
        assert(m * (steps(nk) * steps(ni) * 6) == 0) by (nonlinear_arith)
            requires
                m == 0,
        ;
    }
}

proof fn lemma_i_faces_len(ni: int, nj: int, nk: int, is: Seq<int>, m: nat)
    requires
        m <= is.len(),
    ensures
        i_faces(ni, nj, nk, is, m).len() == m * (steps(nk) * steps(nj) * 6),
    decreases m,
{
    if m > 0 {
        lemma_i_faces_len(ni, nj, nk, is, (m - 1) as nat);
        let cell = i_cell(ni, nj, is[m - 1]);
        assert(cells_sized(cell, steps(nk), steps(nj), 6));
        lemma_grid_cells(cell, steps(nk), steps(nj), 6, 0);
        assert(m * (steps(nk) * steps(nj) * 6) == (m - 1) * (steps(nk) * steps(nj) * 6) + steps(nk) * steps(nj)
            * 6) by (nonlinear_arith)
            requires
                m > 0,
        ;
    } else {
        assert(m * (steps(nk) * steps(nj) * 6) == 0) by (nonlinear_arith)
            requires
                m == 0,
        ;
    }
}

/// A block's boundary holds two triangles per boundary quad: each face direction contributes
/// its planes (one plane when the block is a single layer thick that way, else two) times the
/// quads of a plane.
pub proof fn lemma_block_surface_len(ni: int, nj: int, nk: int)
    ensures
        block_surface(ni, nj, nk).len() == 6 * (face_planes(nk).len() * (steps(nj) * steps(ni)) + face_planes(
            nj,
        ).len() * (steps(nk) * steps(ni)) + face_planes(ni).len() * (steps(nk) * steps(nj))),
{
    let (ks, js, is) = (face_planes(nk), face_planes(nj), face_planes(ni));
    lemma_k_faces_len(ni, nj, ks, ks.len());
    lemma_j_faces_len(ni, nj, nk, js, js.len());
    lemma_i_faces_len(ni, nj, nk, is, is.len());
    let (a, b, c) = (steps(nj) * steps(ni), steps(nk) * steps(ni), steps(nk) * steps(nj));
    let (x, y, z) = (ks.len(), js.len(), is.len());
    assert(x * (a * 6) + y * (b * 6) + z * (c * 6) == 6 * (x * a + y * b + z * c)) by (nonlinear_arith);
    assert(steps(nj) * steps(ni) * 6 == a * 6);
    assert(steps(nk) * steps(ni) * 6 == b * 6);
    assert(steps(nk) * steps(nj) * 6 == c * 6);
}


/// The number of boundary faces a block has across an axis of `n` points: one when the axis
/// is flat, two otherwise.
pub open spec fn boundary_faces(n: int) -> int {
    if n == 1 {
        1
    } else {
        2
    }
}

/// For a block of at least one point along each axis, the surface has two triangles per
/// boundary quad, a flat axis contributing its single face once, and every index names a
/// point of the block.
pub proof fn lemma_block_surface_shape(ni: int, nj: int, nk: int)
    requires
        ni >= 1,
        nj >= 1,
        nk >= 1,
        ni * nj * nk <= u32::MAX + 1,
    ensures
        block_surface(ni, nj, nk).len() == 6 * (boundary_faces(nk) * (ni - 1) * (nj - 1) + boundary_faces(nj)
            * (ni - 1) * (nk - 1) + boundary_faces(ni) * (nj - 1) * (nk - 1)),
        forall|t: int|
            0 <= t < block_surface(ni, nj, nk).len() ==> #[trigger] block_surface(ni, nj, nk)[t] < ni * nj * nk,
{
    lemma_block_surface_len(ni, nj, nk);
    lemma_block_surface_in_range(ni, nj, nk);
    assert(grid_nodes(ni, nj, nk) == ni * nj * nk);
    let (a, b, c) = (steps(ni) as int, steps(nj) as int, steps(nk) as int);
    assert(a == ni - 1 && b == nj - 1 && c == nk - 1);
    let (x, y, z) = (face_planes(nk).len() as int, face_planes(nj).len() as int, face_planes(ni).len() as int);
    assert(x == boundary_faces(nk) && y == boundary_faces(nj) && z == boundary_faces(ni));
    assert(x * (b * a) + y * (c * a) + z * (c * b) == x * a * b + y * a * c + z * b * c) by (nonlinear_arith);
}

/// What a case-file variable holds, and where.
#[derive(Clone, Copy, Debug, PartialEq, Eq, Structural)]
pub enum VarType {
    /// One scalar per node.
    ScalarPerNode,
    /// One scalar per element.
    ScalarPerElement,
    /// One vector per node.
    VectorPerNode,
    /// One vector per element.
    VectorPerElement,
}

/// A variable declared in the `VARIABLE` section.
pub struct CaseVariable {
    /// The description, or the file name when there is none.
    pub name: String,
    /// The variable file name, possibly with `*` wildcards for the step number.
    pub file_pattern: String,
    /// What the variable holds.
    pub var_type: VarType,
    /// The time set the variable follows, when given.
    pub time_set: Option<usize>,
}

/// A time set of the `TIME` section.
pub struct TimeSet {
    /// The set's number.
    pub id: usize,
    /// The time value texts, in order.
    pub values: Vec<Vec<char>>,
}

/// What the decoder reads of a case file.
pub struct CaseFile {
    /// The geometry file name (the `model:` line).
    pub geometry_file: String,
    /// The time set of the geometry, when the model line gives one.
    pub geometry_time_set: Option<usize>,
    /// The variables, in order.
    pub variables: Vec<CaseVariable>,
    /// The time sets, in the order they were completed.
    pub time_sets: Vec<TimeSet>,
}

/// A variable as plain values.
pub struct VarSpec {
    pub name: Seq<char>,
    pub file_pattern: Seq<char>,
    pub var_type: VarType,
    pub time_set: Option<usize>,
}

/// A time set as plain values.
pub struct TimeSpec {
    pub id: usize,
    pub values: Seq<Seq<char>>,
}

/// The state of a case-file reading: what was gathered, the current section, the time set
/// being filled, and how many time values are still awaited.
pub struct CaseSpec {
    pub geometry_file: Seq<char>,
    pub geometry_time_set: Option<usize>,
    pub variables: Seq<VarSpec>,
    pub time_sets: Seq<TimeSpec>,
    pub section: Seq<char>,
    pub current: Option<TimeSpec>,
    pub expecting: nat,
}

/// The words `ws[0..n]` joined by single spaces.
pub open spec fn join_words(ws: Seq<Seq<char>>, n: nat) -> Seq<char>
    decreases n,
{
    if n == 0 {
        Seq::empty()
    } else if n == 1 {
        ws[0]
    } else {
        join_words(ws, (n - 1) as nat) + " "@ + ws[n - 1]
    }
}

/// All the words, joined by single spaces.
pub open spec fn join_all(ws: Seq<Seq<char>>) -> Seq<char> {
    join_words(ws, ws.len())
}

/// The case after a geometry `model:` line whose value is `rest`: a leading time-set number
/// (when another word follows) is taken as the geometry's time set, an optional file-set
/// number after it skipped, and the remaining words form the file name.
pub open spec fn geometry_line(c: CaseSpec, rest: Seq<char>) -> CaseSpec {
    let ws = words(rest);
    if ws.len() == 0 {
        c
    } else if ws.len() >= 2 && crate::text::usize_value(ws[0]) is Some {
        CaseSpec {
            geometry_time_set: crate::text::usize_value(ws[0]),
            geometry_file: if ws.len() >= 3 {
                join_all(ws.subrange(2, ws.len() as int))
            } else {
                ws[1]
            },
            ..c
        }
    } else {
        CaseSpec { geometry_file: join_all(ws), ..c }
    }
}

/// The piece of `s` after its last `/`.
pub open spec fn after_last_slash(s: Seq<char>) -> Seq<char>
    decreases s.len(),
{
    if s.len() == 0 {
        s
    } else if s.last() == '/' {
        Seq::empty()
    } else {
        after_last_slash(s.drop_last()).push(s.last())
    }
}

/// The variable kind a variable line starts with, and the length of that prefix.
pub open spec fn var_prefix(line: Seq<char>) -> Option<(VarType, nat)> {
    if starts(line, "scalar per node:"@) {
        Some((VarType::ScalarPerNode, 16))
    } else if starts(line, "scalar per element:"@) {
        Some((VarType::ScalarPerElement, 19))
    } else if starts(line, "vector per node:"@) {
        Some((VarType::VectorPerNode, 16))
    } else if starts(line, "vector per element:"@) {
        Some((VarType::VectorPerElement, 19))
    } else {
        None
    }
}

/// The case after a line of the `VARIABLE` section: `<kind>: [time set] <description>
/// <file>`. The last word is the file; the words between the optional time-set number and it
/// are the description, and the file's last path piece when there are none. Lines of other
/// kinds, or with fewer than two words, change nothing.
pub open spec fn variable_line(c: CaseSpec, line: Seq<char>) -> CaseSpec {
    match var_prefix(line) {
        None => c,
        Some((vt, n)) => {
            let ws = words(trim(line.subrange(n as int, line.len() as int)));
            if ws.len() < 2 {
                c
            } else {
                let (ts, start) = match crate::text::usize_value(ws[0]) {
                    Some(v) => (Some(v), 1int),
                    None => (None, 0int),
                };
                let fp = ws.last();
                let name = join_all(ws.subrange(start, ws.len() - 1));
                let name = if name.len() == 0 {
                    after_last_slash(fp)
                } else {
                    name
                };
                CaseSpec {
                    variables: c.variables.push(VarSpec { name, file_pattern: fp, var_type: vt, time_set: ts }),
                    ..c
                }
            }
        },
    }
}

/// The time set being filled and the awaited count after the first `n` of the words `ws`:
/// each word that reads as a number is added to the set, when there is one, and lowers the
/// awaited count (not below 0).
pub open spec fn take_times(cur: Option<TimeSpec>, exp: nat, ws: Seq<Seq<char>>, n: nat) -> (Option<TimeSpec>, nat)
    decreases n,
{
    if n == 0 {
        (cur, exp)
    } else {
        let (c, e) = take_times(cur, exp, ws, (n - 1) as nat);
        let w = ws[n - 1];
        match c {
            Some(t) => if crate::text::is_float_text(w) {
                (Some(TimeSpec { values: t.values.push(w), ..t }), if e > 0 {
                    (e - 1) as nat
                } else {
                    0
                })
            } else {
                (c, e)
            },
            None => (c, e),
        }
    }
}

/// The case with the time set being filled, if any, completed.
pub open spec fn flush(c: CaseSpec) -> CaseSpec {
    match c.current {
        Some(t) => CaseSpec { time_sets: c.time_sets.push(t), current: None, ..c },
        None => c,
    }
}

/// The case after time-value words: they are taken (see [`take_times`]), and the set is
/// completed when no more values are awaited.
pub open spec fn time_words(c: CaseSpec, ws: Seq<Seq<char>>) -> CaseSpec {
    let (cur, e) = take_times(c.current, c.expecting, ws, ws.len());
    let c2 = CaseSpec { current: cur, expecting: e, ..c };
    if e == 0 {
        flush(c2)
    } else {
        c2
    }
}

/// `s` without its trailing `:` characters.
pub open spec fn trim_colons(s: Seq<char>) -> Seq<char>
    decreases s.len(),
{
    if s.len() > 0 && s.last() == ':' {
        trim_colons(s.drop_last())
    } else {
        s
    }
}

/// Whether a line is a section header: it ends with `:` or is one of `FORMAT`, `GEOMETRY`,
/// `VARIABLE`, `TIME`.
pub open spec fn is_section(t: Seq<char>) -> bool {
    (t.len() > 0 && t.last() == ':') || t == "FORMAT"@ || t == "GEOMETRY"@ || t == "VARIABLE"@ || t == "TIME"@
}

/// The case after one trimmed line of a case file. Blank and `#` lines change nothing; while
/// time values are awaited every line is read for them; a section header completes the
/// time set being filled and names the section (upper-cased, trailing colons dropped);
/// other lines are read by their section.
pub open spec fn case_line(c: CaseSpec, t: Seq<char>) -> CaseSpec {
    if t.len() == 0 || t[0] == '#' {
        c
    } else if c.expecting > 0 {
        time_words(c, words(t))
    } else if is_section(t) {
        CaseSpec { section: crate::text::upper_text(trim_colons(t)), ..flush(c) }
    } else if c.section == "GEOMETRY"@ {
        if starts(t, "model:"@) {
            geometry_line(c, trim(t.subrange(6, t.len() as int)))
        } else if starts(t, "model"@) {
            let rest = trim(t.subrange(5, t.len() as int));
            if starts(rest, ":"@) {
                geometry_line(c, trim(rest.subrange(1, rest.len() as int)))
            } else {
                c
            }
        } else {
            c
        }
    } else if c.section == "VARIABLE"@ {
        variable_line(c, t)
    } else if c.section == "TIME"@ {
        if starts(t, "time set:"@) {
            CaseSpec {
                current: Some(
                    TimeSpec {
                        id: match crate::text::usize_value(trim(t.subrange(9, t.len() as int))) {
                            Some(v) => v,
                            None => 1,
                        },
                        values: Seq::empty(),
                    },
                ),
                ..c
            }
        } else if starts(t, "number of steps:"@) {
            CaseSpec {
                expecting: match crate::text::usize_value(trim(t.subrange(16, t.len() as int))) {
                    Some(v) => v as nat,
                    None => 0,
                },
                ..c
            }
        } else if starts(t, "time values:"@) {
            time_words(c, words(trim(t.subrange(12, t.len() as int))))
        } else {
            c
        }
    } else {
        c
    }
}

/// The case after the first `n` of the trimmed lines `ts`.
pub open spec fn case_lines(ts: Seq<Seq<char>>, n: nat) -> CaseSpec
    decreases n,
{
    if n == 0 {
        CaseSpec {
            geometry_file: Seq::empty(),
            geometry_time_set: None,
            variables: Seq::empty(),
            time_sets: Seq::empty(),
            section: Seq::empty(),
            current: None,
            expecting: 0,
        }
    } else {
        case_line(case_lines(ts, (n - 1) as nat), ts[n - 1])
    }
}

/// The case file a text holds: every trimmed line read in turn and the last time set
/// completed. `None` when no geometry file was named.
pub open spec fn case_of(text: Seq<char>) -> Option<CaseSpec> {
    let ts = crate::tecplot::trimmed_lines(text);
    let c = flush(case_lines(ts, ts.len()));
    if c.geometry_file.len() == 0 {
        None
    } else {
        Some(c)
    }
}


/// A variable as plain values.
pub open spec fn var_view(v: CaseVariable) -> VarSpec {
    VarSpec { name: v.name@, file_pattern: v.file_pattern@, var_type: v.var_type, time_set: v.time_set }
}

/// A time set as plain values.
pub open spec fn time_view(t: TimeSet) -> TimeSpec {
    TimeSpec { id: t.id, values: texts(t.values@) }
}

/// The variables as plain values.
pub open spec fn var_views(v: Seq<CaseVariable>) -> Seq<VarSpec> {
    v.map_values(|x: CaseVariable| var_view(x))
}

/// The time sets as plain values.
pub open spec fn time_views(v: Seq<TimeSet>) -> Seq<TimeSpec> {
    v.map_values(|x: TimeSet| time_view(x))
}

struct CaseState {
    case: CaseFile,
    section: Vec<char>,
    current: Option<TimeSet>,
    expecting: usize,
}

spec fn state_view(s: CaseState) -> CaseSpec {
    CaseSpec {
        geometry_file: s.case.geometry_file@,
        geometry_time_set: s.case.geometry_time_set,
        variables: var_views(s.case.variables@),
        time_sets: time_views(s.case.time_sets@),
        section: s.section@,
        current: match s.current {
            Some(t) => Some(time_view(t)),
            None => None,
        },
        expecting: s.expecting as nat,
    }
}

pub(crate) fn copy_chars(s: &[char]) -> (r: Vec<char>)
    ensures
        r@ == s@,
{
    let mut r: Vec<char> = Vec::new();
    let mut i: usize = 0;
    while i < s.len()
        invariant
            i <= s@.len(),
            r@ == s@.subrange(0, i as int),
        decreases s@.len() - i,
    {
        r.push(s[i]);
        assert(s@.subrange(0, i + 1) =~= s@.subrange(0, i as int).push(s@[i as int]));
        i = i + 1;
    }
    assert(s@.subrange(0, s@.len() as int) =~= s@);
    r
}

fn tail_of(s: &[char], a: usize) -> (r: Vec<char>)
    requires
        a <= s@.len(),
    ensures
        r@ == s@.subrange(a as int, s@.len() as int),
{
    let mut r: Vec<char> = Vec::new();
    let mut i: usize = a;
    while i < s.len()
        invariant
            a <= i <= s@.len(),
            r@ == s@.subrange(a as int, i as int),
        decreases s@.len() - i,
    {
        r.push(s[i]);
        assert(s@.subrange(a as int, i + 1) =~= s@.subrange(a as int, i as int).push(s@[i as int]));
        i = i + 1;
    }
    r
}

/// The white-space separated words of `t`.
fn words_of(t: &[char]) -> (r: Vec<Vec<char>>)
    ensures
        texts(r@) == words(t@),
{
    let ranges = crate::text::word_ranges(t);
    let ghost ws = words(t@);
    let mut r: Vec<Vec<char>> = Vec::new();
    let mut k: usize = 0;
    while k < ranges.len()
        invariant
            k <= ranges@.len(),
            ws == words(t@),
            crate::text::ranges_match(t@, ranges@, ws),
            texts(r@) == ws.subrange(0, k as int),
        decreases ranges@.len() - k,
    {
        let (a, b) = ranges[k];
        let mut w: Vec<char> = Vec::new();
        let mut i = a;
        while i < b
            invariant
                a <= i <= b <= t@.len(),
                w@ == t@.subrange(a as int, i as int),
            decreases b - i,
        {
            w.push(t[i]);
            assert(t@.subrange(a as int, i + 1) =~= t@.subrange(a as int, i as int).push(t@[i as int]));
            i = i + 1;
        }
        let ghost before = r@;
        r.push(w);
        assert(texts(r@) =~= ws.subrange(0, k + 1)) by {
            assert(texts(r@) =~= texts(before).push(w@));
        }
        k = k + 1;
    }
    assert(ws.subrange(0, ws.len() as int) =~= ws);
    r
}

/// The words `ws[a..b]` joined by single spaces.
fn join_range(ws: &Vec<Vec<char>>, a: usize, b: usize) -> (r: Vec<char>)
    requires
        a <= b <= ws@.len(),
    ensures
        r@ == join_all(texts(ws@).subrange(a as int, b as int)),
{
    let ghost wv = texts(ws@);
    let mut r: Vec<char> = Vec::new();
    let mut k = a;
    while k < b
        invariant
            a <= k <= b <= ws@.len(),
            wv == texts(ws@),
            r@ == join_words(wv.subrange(a as int, b as int), (k - a) as nat),
        decreases b - k,
    {
        let ghost before = r@;
        if k > a {
            r.push(' ');
        }
        let w = &ws[k];
        let mut i: usize = 0;
        let ghost mid = r@;
        while i < w.len()
            invariant
                i <= w@.len(),
                r@ == mid + w@.subrange(0, i as int),
            decreases w@.len() - i,
        {
            r.push(w[i]);
            assert(w@.subrange(0, i + 1) =~= w@.subrange(0, i as int).push(w@[i as int]));
            i = i + 1;
        }
        proof {
            let sub = wv.subrange(a as int, b as int);
            assert(sub[k - a] == w@);
            assert(w@.subrange(0, w@.len() as int) =~= w@);
            if k > a {
                reveal_strlit(" ");
                assert(mid =~= before + " "@);
            } else {
                assert(before =~= Seq::<char>::empty());
            }
            assert(r@ =~= join_words(sub, (k + 1 - a) as nat));
        }
        k = k + 1;
    }
    r
}

fn push_times(st: &mut CaseState, ws: &Vec<Vec<char>>)
    ensures
        state_view(*final(st)) == time_words(state_view(*old(st)), texts(ws@)),
{
    let ghost wv = texts(ws@);
    let mut k: usize = 0;
    while k < ws.len()
        invariant
            k <= ws@.len(),
            wv == texts(ws@),
            ({
                let (cur, e) = take_times(state_view(*old(st)).current, state_view(*old(st)).expecting, wv, k as nat);
                state_view(*st) == CaseSpec { current: cur, expecting: e, ..state_view(*old(st)) }
            }),
        decreases ws@.len() - k,
    {
        let w = &ws[k];
        assert(wv[k as int] == w@);
        match st.current {
            Some(ref mut t) => {
                if crate::text::is_float_range(w.as_slice(), 0, w.len()) {
                    assert(w@.subrange(0, w@.len() as int) =~= w@);
                    let ghost before = t.values@;
                    t.values.push(copy_chars(w.as_slice()));
                    assert(texts(t.values@) =~= texts(before).push(w@));
                    if st.expecting > 0 {
                        st.expecting = st.expecting - 1;
                    }
                } else {
                    assert(w@.subrange(0, w@.len() as int) =~= w@);
                }
            },
            None => {},
        }
        k = k + 1;
    }
    if st.expecting == 0 {
        match st.current.take() {
            Some(t) => {
                let ghost before = st.case.time_sets@;
                st.case.time_sets.push(t);
                assert(time_views(st.case.time_sets@) =~= time_views(before).push(time_view(t)));
            },
            None => {},
        }
    }
}

fn flush_state(st: &mut CaseState)
    ensures
        state_view(*final(st)) == flush(state_view(*old(st))),
{
    match st.current.take() {
        Some(t) => {
            let ghost before = st.case.time_sets@;
            st.case.time_sets.push(t);
            assert(time_views(st.case.time_sets@) =~= time_views(before).push(time_view(t)));
        },
        None => {},
    }
}


fn text_string(t: &[char]) -> (r: String)
    ensures
        r@ == t@,
{
    let r = crate::text::string_of(t, 0, t.len());
    assert(t@.subrange(0, t@.len() as int) =~= t@);
    r
}

fn word_usize(w: &Vec<char>) -> (r: Option<usize>)
    ensures
        r == crate::text::usize_value(w@),
{
    let r = crate::text::parse_usize(w.as_slice(), 0, w.len());
    assert(w@.subrange(0, w@.len() as int) =~= w@);
    r
}

fn apply_geometry_line(st: &mut CaseState, rest: &[char])
    ensures
        state_view(*final(st)) == geometry_line(state_view(*old(st)), rest@),
{
    let ws = words_of(rest);
    let n = ws.len();
    if n == 0 {
        return ;
    }
    if n >= 2 {
        match word_usize(&ws[0]) {
            Some(v) => {
                st.case.geometry_time_set = Some(v);
                let file = if n >= 3 {
                    join_range(&ws, 2, n)
                } else {
                    copy_chars(ws[1].as_slice())
                };
                st.case.geometry_file = text_string(file.as_slice());
                return ;
            },
            None => {},
        }
    }
    let file = join_range(&ws, 0, n);
    assert(texts(ws@).subrange(0, n as int) =~= texts(ws@));
    st.case.geometry_file = text_string(file.as_slice());
}

fn after_slash(s: &[char]) -> (r: Vec<char>)
    ensures
        r@ == after_last_slash(s@),
{
    let mut k: usize = s.len();
    assert(s@.subrange(0, s@.len() as int) =~= s@);
    assert(after_last_slash(s@) + s@.subrange(k as int, s@.len() as int) =~= after_last_slash(s@));
    while k > 0 && s[k - 1] != '/'
        invariant
            k <= s@.len(),
            after_last_slash(s@) == after_last_slash(s@.subrange(0, k as int)) + s@.subrange(k as int, s@.len() as int),
        decreases k,
    {
        let ghost p = s@.subrange(0, k as int);
        assert(p.drop_last() =~= s@.subrange(0, k - 1));
        assert(after_last_slash(p) == after_last_slash(p.drop_last()).push(p.last()));
        assert(s@.subrange(k - 1, s@.len() as int) =~= seq![p.last()] + s@.subrange(k as int, s@.len() as int));
        k = k - 1;
    }
    proof {
        let p = s@.subrange(0, k as int);
        assert(after_last_slash(p) =~= Seq::<char>::empty());
        assert(s@.subrange(0, s@.len() as int) =~= s@);
    }
    tail_of(s, k)
}

fn apply_variable_line(st: &mut CaseState, line: &[char])
    ensures
        state_view(*final(st)) == variable_line(state_view(*old(st)), line@),
{
    let (vt, n): (VarType, usize) = if starts_with(line, "scalar per node:") {
        (VarType::ScalarPerNode, 16)
    } else if starts_with(line, "scalar per element:") {
        (VarType::ScalarPerElement, 19)
    } else if starts_with(line, "vector per node:") {
        (VarType::VectorPerNode, 16)
    } else if starts_with(line, "vector per element:") {
        (VarType::VectorPerElement, 19)
    } else {
        return ;
    };
    proof {
        reveal_strlit("scalar per node:");
        reveal_strlit("scalar per element:");
        reveal_strlit("vector per node:");
        reveal_strlit("vector per element:");
    }
    let rest = tail_of(line, n);
    let rt = crate::text::trimmed(rest.as_slice());
    let ws = words_of(rt.as_slice());
    let len = ws.len();
    if len < 2 {
        return ;
    }
    let (ts, start): (Option<usize>, usize) = match word_usize(&ws[0]) {
        Some(v) => (Some(v), 1),
        None => (None, 0),
    };
    let fp = copy_chars(ws[len - 1].as_slice());
    let joined = join_range(&ws, start, len - 1);
    let name = if joined.len() == 0 {
        after_slash(fp.as_slice())
    } else {
        joined
    };
    let ghost before = st.case.variables@;
    let v = CaseVariable {
        name: text_string(name.as_slice()),
        file_pattern: text_string(fp.as_slice()),
        var_type: vt,
        time_set: ts,
    };
    st.case.variables.push(v);
    assert(var_views(st.case.variables@) =~= var_views(before).push(var_view(v)));
}

fn is_section_line(t: &[char]) -> (r: bool)
    ensures
        r == is_section(t@),
{
    (t.len() > 0 && t[t.len() - 1] == ':') || is_word(t, "FORMAT") || is_word(t, "GEOMETRY") || is_word(
        t,
        "VARIABLE",
    ) || is_word(t, "TIME")
}

fn without_colons(t: &[char]) -> (r: Vec<char>)
    ensures
        r@ == trim_colons(t@),
{
    let mut k: usize = t.len();
    assert(t@.subrange(0, t@.len() as int) =~= t@);
    while k > 0 && t[k - 1] == ':'
        invariant
            k <= t@.len(),
            trim_colons(t@) == trim_colons(t@.subrange(0, k as int)),
        decreases k,
    {
        assert(t@.subrange(0, k as int).drop_last() =~= t@.subrange(0, k - 1));
        k = k - 1;
    }
    assert(trim_colons(t@.subrange(0, k as int)) == t@.subrange(0, k as int));
    let mut out: Vec<char> = Vec::new();
    let mut i: usize = 0;
    while i < k
        invariant
            i <= k <= t@.len(),
            out@ == t@.subrange(0, i as int),
        decreases k - i,
    {
        out.push(t[i]);
        assert(t@.subrange(0, i + 1) =~= t@.subrange(0, i as int).push(t@[i as int]));
        i = i + 1;
    }
    out
}

fn apply_case_line(st: &mut CaseState, t: &[char])
    ensures
        state_view(*final(st)) == case_line(state_view(*old(st)), t@),
{
    if t.len() == 0 || t[0] == '#' {
        return ;
    }
    if st.expecting > 0 {
        let ws = words_of(t);
        push_times(st, &ws);
        return ;
    }
    if is_section_line(t) {
        flush_state(st);
        let name = without_colons(t);
        st.section = crate::tecplot::upper_chars(name.as_slice());
        return ;
    }
    if is_word(st.section.as_slice(), "GEOMETRY") {
        if starts_with(t, "model:") {
            proof {
                reveal_strlit("model:");
            }
            let rest = tail_of(t, 6);
            let r = crate::text::trimmed(rest.as_slice());
            apply_geometry_line(st, r.as_slice());
        } else if starts_with(t, "model") {
            proof {
                reveal_strlit("model");
            }
            let rest = tail_of(t, 5);
            let r = crate::text::trimmed(rest.as_slice());
            if starts_with(r.as_slice(), ":") {
                proof {
                    reveal_strlit(":");
                }
                let r2 = tail_of(r.as_slice(), 1);
                let r3 = crate::text::trimmed(r2.as_slice());
                apply_geometry_line(st, r3.as_slice());
            }
        }
    } else if is_word(st.section.as_slice(), "VARIABLE") {
        apply_variable_line(st, t);
    } else if is_word(st.section.as_slice(), "TIME") {
        if starts_with(t, "time set:") {
            proof {
                reveal_strlit("time set:");
            }
            let rest = tail_of(t, 9);
            let r = crate::text::trimmed(rest.as_slice());
            let id = match crate::text::parse_usize(r.as_slice(), 0, r.len()) {
                Some(v) => v,
                None => 1,
            };
            assert(r@.subrange(0, r@.len() as int) =~= r@);
            let ts = TimeSet { id, values: Vec::new() };
            assert(texts(ts.values@) =~= Seq::<Seq<char>>::empty());
            st.current = Some(ts);
        } else if starts_with(t, "number of steps:") {
            proof {
                reveal_strlit("number of steps:");
            }
            let rest = tail_of(t, 16);
            let r = crate::text::trimmed(rest.as_slice());
            st.expecting = match crate::text::parse_usize(r.as_slice(), 0, r.len()) {
                Some(v) => v,
                None => 0,
            };
            assert(r@.subrange(0, r@.len() as int) =~= r@);
        } else if starts_with(t, "time values:") {
            proof {
                reveal_strlit("time values:");
            }
            let rest = tail_of(t, 12);
            let r = crate::text::trimmed(rest.as_slice());
            let ws = words_of(r.as_slice());
            push_times(st, &ws);
        }
    }
}

/// Reads an EnSight Gold case file (see [`case_of`]): the geometry model line, the
/// variables, and the time sets. Fails with a parse error when no geometry file is named.
pub fn parse_case_file(text: &str) -> (r: Result<CaseFile, IoError>)
    ensures
        match case_of(text@) {
            Some(c) => r matches Ok(cf) && cf.geometry_file@ == c.geometry_file && cf.geometry_time_set
                == c.geometry_time_set && var_views(cf.variables@) == c.variables && time_views(cf.time_sets@)
                == c.time_sets,
            None => r matches Err(IoError::Parse(m)) && m@ == "EnSight parse error: Case file missing geometry model line"@,
        },
{
    let cs = chars_of(text);
    let lines = crate::text::split_lines(cs.as_slice());
    let ghost ts = crate::tecplot::trimmed_lines(text@);
    let mut st = CaseState {
        case: CaseFile { geometry_file: String::new(), geometry_time_set: None, variables: Vec::new(), time_sets: Vec::new() },
        section: Vec::new(),
        current: None,
        expecting: 0,
    };
    assert(var_views(st.case.variables@) =~= Seq::<VarSpec>::empty());
    assert(time_views(st.case.time_sets@) =~= Seq::<TimeSpec>::empty());
    let mut k: usize = 0;
    while k < lines.len()
        invariant
            k <= lines@.len(),
            ts == crate::tecplot::trimmed_lines(text@),
            lines@.len() == ts.len(),
            forall|j: int| 0 <= j < lines@.len() ==> trim((#[trigger] lines@[j])@) == ts[j],
            state_view(st) == case_lines(ts, k as nat),
        decreases lines@.len() - k,
    {
        let t = crate::text::trimmed(lines[k].as_slice());
        apply_case_line(&mut st, t.as_slice());
        k = k + 1;
    }
    flush_state(&mut st);
    if chars_of(st.case.geometry_file.as_str()).len() == 0 {
        return Err(parse_error("EnSight parse error: Case file missing geometry model line"));
    }
    Ok(st.case)
}


/// The number of `c` characters in `s`.
pub open spec fn count_char(s: Seq<char>, c: char) -> nat
    decreases s.len(),
{
    if s.len() == 0 {
        0
    } else {
        count_char(s.drop_last(), c) + if s.last() == c {
            1nat
        } else {
            0nat
        }
    }
}

/// `s` with its first occurrence of `p` replaced by `r` (`str::replacen(p, r, 1)`).
pub open spec fn replace_first(s: Seq<char>, p: Seq<char>, r: Seq<char>) -> Seq<char> {
    match crate::tecplot::first_sub(s, p, 0) {
        Some(k) => s.subrange(0, k) + r + s.subrange(k + p.len(), s.len() as int),
        None => s,
    }
}

/// The file name a variable pattern gives for step `step`: a pattern without `*` is kept; else
/// the first run of as many `*` as the pattern holds is replaced by the step number padded
/// with zeros to that width.
pub open spec fn wildcard_at_step(pattern: Seq<char>, step: nat) -> Seq<char> {
    let n = count_char(pattern, '*');
    if n == 0 {
        pattern
    } else {
        replace_first(pattern, Seq::new(n, |i: int| '*'), padded_decimal(step, n))
    }
}

/// The file name of a variable at step `step` (see [`wildcard_at_step`]); the caller joins it
/// to the case file's directory.
pub fn resolve_wildcard_at_step(pattern: &str, step: usize) -> (r: String)
    ensures
        r@ == wildcard_at_step(pattern@, step as nat),
{
    let p = chars_of(pattern);
    let mut n: usize = 0;
    let mut i: usize = 0;
    while i < p.len()
        invariant
            i <= p@.len(),
            p@ == pattern@,
            n == count_char(p@.subrange(0, i as int), '*'),
            n <= i,
        decreases p@.len() - i,
    {
        assert(p@.subrange(0, i + 1).drop_last() =~= p@.subrange(0, i as int));
        if p[i] == '*' {
            n = n + 1;
        }
        i = i + 1;
    }
    assert(p@.subrange(0, p@.len() as int) =~= p@);
    if n == 0 {
        return text_string(p.as_slice());
    }
    let mut stars: Vec<char> = Vec::new();
    let mut k: usize = 0;
    while k < n
        invariant
            k <= n,
            stars@ =~= Seq::new(k as nat, |i: int| '*'),
        decreases n - k,
    {
        stars.push('*');
        k = k + 1;
    }
    let mut digits = String::new();
    crate::text::push_decimal(&mut digits, step);
    let d = chars_of(digits.as_str());
    assert(d@ =~= decimal(step as nat));
    let mut rep: Vec<char> = Vec::new();
    if d.len() < n {
        let pad = n - d.len();
        let mut z: usize = 0;
        while z < pad
            invariant
                z <= pad,
                rep@ =~= Seq::new(z as nat, |i: int| '0'),
            decreases pad - z,
        {
            rep.push('0');
            z = z + 1;
        }
    }
    let mut m: usize = 0;
    let ghost pre = rep@;
    while m < d.len()
        invariant
            m <= d@.len(),
            rep@ == pre + d@.subrange(0, m as int),
        decreases d@.len() - m,
    {
        rep.push(d[m]);
        assert(d@.subrange(0, m + 1) =~= d@.subrange(0, m as int).push(d@[m as int]));
        m = m + 1;
    }
    assert(d@.subrange(0, d@.len() as int) =~= d@);
    assert(rep@ =~= padded_decimal(step as nat, n as nat));
    let ghost starseq = stars@;
    let plen = p.len();
    let mut at: usize = 0;
    let mut found: Option<usize> = None;
    while at <= plen && n <= plen - at
        invariant_except_break
            found is None,
            crate::tecplot::first_sub(p@, starseq, 0) == crate::tecplot::first_sub(p@, starseq, at as int),
        invariant
            plen == p@.len(),
            stars@ == starseq,
            starseq.len() == n,
            n >= 1,
        ensures
            found matches Some(f) ==> crate::tecplot::first_sub(p@, starseq, 0) == Some(f as int) && f + n <= plen,
            found is None ==> crate::tecplot::first_sub(p@, starseq, 0) is None,
        decreases p@.len() + 1 - at,
    {
        if crate::text::slice_matches(p.as_slice(), at, stars.as_slice()) {
            found = Some(at);
            break;
        }
        at = at + 1;
    }
    let mut out: Vec<char> = Vec::new();
    match found {
        Some(f) => {
            let mut t: usize = 0;
            while t < f
                invariant
                    t <= f,
                    f + n <= p@.len(),
                    out@ == p@.subrange(0, t as int),
                decreases f - t,
            {
                out.push(p[t]);
                assert(p@.subrange(0, t + 1) =~= p@.subrange(0, t as int).push(p@[t as int]));
                t = t + 1;
            }
            let ghost mid = out@;
            let mut t: usize = 0;
            while t < rep.len()
                invariant
                    t <= rep@.len(),
                    out@ == mid + rep@.subrange(0, t as int),
                decreases rep@.len() - t,
            {
                out.push(rep[t]);
                assert(rep@.subrange(0, t + 1) =~= rep@.subrange(0, t as int).push(rep@[t as int]));
                t = t + 1;
            }
            assert(rep@.subrange(0, rep@.len() as int) =~= rep@);
            let ghost mid2 = out@;
            let mut t: usize = f + n;
            while t < p.len()
                invariant
                    f + n <= t <= p@.len(),
                    out@ == mid2 + p@.subrange(f + n, t as int),
                decreases p@.len() - t,
            {
                out.push(p[t]);
                assert(p@.subrange(f + n, t + 1) =~= p@.subrange(f + n, t as int).push(p@[t as int]));
                t = t + 1;
            }
            assert(out@ =~= wildcard_at_step(pattern@, step as nat));
        },
        None => {
            out = copy_chars(p.as_slice());
        },
    }
    text_string(out.as_slice())
}

/// `s` with every `*` replaced by `0`.
pub open spec fn stars_to_zeros(s: Seq<char>) -> Seq<char> {
    s.map_values(|c: char| if c == '*' { '0' } else { c })
}

/// The geometry file name a model pattern resolves to, given whether the step-0 and the
/// step-1 names (see [`wildcard_at_step`]) exist: a pattern without `*` is kept; else the
/// step-0 name if it exists, else the step-1 name if it exists, else the pattern with every
/// `*` made `0`.
pub open spec fn geometry_name(pattern: Seq<char>, step0_exists: bool, step1_exists: bool) -> Seq<char> {
    if count_char(pattern, '*') == 0 {
        pattern
    } else if step0_exists {
        wildcard_at_step(pattern, 0)
    } else if step1_exists {
        wildcard_at_step(pattern, 1)
    } else {
        stars_to_zeros(pattern)
    }
}

/// The geometry file name of a model pattern (see [`geometry_name`]); the caller checks
/// whether the names of steps 0 and 1 exist next to the case file.
pub fn resolve_wildcard(pattern: &str, step0_exists: bool, step1_exists: bool) -> (r: String)
    ensures
        r@ == geometry_name(pattern@, step0_exists, step1_exists),
{
    let p = chars_of(pattern);
    let mut stars: usize = 0;
    let mut out: Vec<char> = Vec::new();
    let mut i: usize = 0;
    while i < p.len()
        invariant
            i <= p@.len(),
            p@ == pattern@,
            stars == count_char(p@.subrange(0, i as int), '*'),
            stars <= i,
            out@ == stars_to_zeros(p@.subrange(0, i as int)),
        decreases p@.len() - i,
    {
        assert(p@.subrange(0, i + 1).drop_last() =~= p@.subrange(0, i as int));
        if p[i] == '*' {
            stars = stars + 1;
            out.push('0');
        } else {
            out.push(p[i]);
        }
        assert(out@ =~= stars_to_zeros(p@.subrange(0, i + 1)));
        i = i + 1;
    }
    assert(p@.subrange(0, p@.len() as int) =~= p@);
    if stars == 0 {
        text_string(p.as_slice())
    } else if step0_exists {
        resolve_wildcard_at_step(pattern, 0)
    } else if step1_exists {
        resolve_wildcard_at_step(pattern, 1)
    } else {
        text_string(out.as_slice())
    }
}

/// Whether a variable holds one value per node (else one per element).
pub open spec fn per_node(t: VarType) -> bool {
    t is ScalarPerNode || t is VectorPerNode
}

/// Whether a variable holds vectors.
pub open spec fn is_vector(t: VarType) -> bool {
    t is VectorPerNode || t is VectorPerElement
}

/// How a variable of the case is read at a step: its file name, whether its values belong to
/// the nodes, whether they are vectors, and the key the values are filed under (the name,
/// with `:magnitude` after it for a vector, whose magnitudes are kept).
pub struct VariablePlan {
    pub file: String,
    pub per_node: bool,
    pub vector: bool,
    pub key: String,
}

/// The plan for reading variable `var` at step `step` (see [`VariablePlan`]).
pub fn plan_variable(var: &CaseVariable, step: usize) -> (r: VariablePlan)
    ensures
        r.file@ == wildcard_at_step(var.file_pattern@, step as nat),
        r.per_node == per_node(var.var_type),
        r.vector == is_vector(var.var_type),
        r.key@ == if is_vector(var.var_type) {
            var.name@ + ":magnitude"@
        } else {
            var.name@
        },
{
    let file = resolve_wildcard_at_step(var.file_pattern.as_str(), step);
    let pn = match var.var_type {
        VarType::ScalarPerNode | VarType::VectorPerNode => true,
        _ => false,
    };
    let vector = match var.var_type {
        VarType::VectorPerNode | VarType::VectorPerElement => true,
        _ => false,
    };
    let mut key = String::new();
    crate::text::push_str(&mut key, var.name.as_str());
    if vector {
        crate::text::push_str(&mut key, ":magnitude");
    }
    assert(key@ =~= if vector { var.name@ + ":magnitude"@ } else { var.name@ });
    VariablePlan { file, per_node: pn, vector, key }
}

/// The entry counts a variable file is read with, one per part: the parts' point counts
/// for a per-node variable, zeros otherwise.
pub fn expected_counts(per_node: bool, part_sizes: &[usize]) -> (r: Vec<usize>)
    ensures
        r@ == if per_node {
            part_sizes@
        } else {
            Seq::new(part_sizes@.len(), |i: int| 0usize)
        },
{
    let mut r: Vec<usize> = Vec::new();
    let mut i: usize = 0;
    while i < part_sizes.len()
        invariant
            i <= part_sizes@.len(),
            r@ == if per_node {
                part_sizes@.subrange(0, i as int)
            } else {
                Seq::new(i as nat, |j: int| 0usize)
            },
        decreases part_sizes@.len() - i,
    {
        r.push(if per_node { part_sizes[i] } else { 0 });
        proof {
            if per_node {
                assert(r@ =~= part_sizes@.subrange(0, i + 1));
            } else {
                assert(r@ =~= Seq::new((i + 1) as nat, |j: int| 0usize));
            }
        }
        i = i + 1;
    }
    proof {
        if per_node {
            assert(part_sizes@.subrange(0, i as int) =~= part_sizes@);
        }
    }
    r
}

/// The timestep selectors of a case: one per value of its first time set (`"0"`, `"1"`,
/// ...), or the single selector `"0"` when it has no time set.
pub fn read_series(case: &CaseFile) -> (r: Vec<String>)
    ensures
        case.time_sets@.len() == 0 ==> r@.len() == 1 && r@[0]@ == decimal(0),
        case.time_sets@.len() > 0 ==> r@.len() == case.time_sets@[0].values@.len() && forall|i: int|
            0 <= i < r@.len() ==> (#[trigger] r@[i])@ == decimal(i as nat),
{
    let mut r: Vec<String> = Vec::new();
    if case.time_sets.len() == 0 {
        r.push(decimal_string(0));
        return r;
    }
    let n = case.time_sets[0].values.len();
    let mut i: usize = 0;
    while i < n
        invariant
            i <= n,
            r@.len() == i,
            forall|j: int| 0 <= j < i ==> (#[trigger] r@[j])@ == decimal(j as nat),
        decreases n - i,
    {
        r.push(decimal_string(i));
        i = i + 1;
    }
    r
}

/// The little-endian unsigned value of four bytes.
pub open spec fn le_u32(b: Seq<u8>) -> u32 {
    (b[0] + 256 * b[1] + 65536 * b[2] + 16777216 * b[3]) as u32
}

/// The little-endian two's-complement value of four bytes (`i32::from_le_bytes`).
pub open spec fn le_i32(b: Seq<u8>) -> i32 {
    le_u32(b) as i32
}

/// The four-byte little-endian integer at `pos`, and the position after it; `None` when fewer
/// than four bytes remain.
pub fn read_i32(data: &[u8], pos: usize) -> (r: Option<(i32, usize)>)
    ensures
        pos + 4 <= data@.len() ==> r == Some((le_i32(data@.subrange(pos as int, pos + 4)), (pos + 4) as usize)),
        pos + 4 > data@.len() ==> r is None,
{
    if pos > data.len() || data.len() - pos < 4 {
        return None;
    }
    let u: u32 = data[pos] as u32 + 256 * (data[pos + 1] as u32) + 65536 * (data[pos + 2] as u32) + 16777216 * (
    data[pos + 3] as u32);
    let ghost b = data@.subrange(pos as int, pos + 4);
    assert(b[0] == data@[pos as int] && b[1] == data@[pos + 1] && b[2] == data@[pos + 2] && b[3] == data@[pos + 3]);
    Some((u as i32, pos + 4))
}

/// `count` four-byte little-endian integers from `pos`, and the position after them; `None`
/// when the data end first.
pub fn read_i32_array(data: &[u8], pos: usize, count: usize) -> (r: Option<(Vec<i32>, usize)>)
    requires
        pos <= data@.len(),
    ensures
        pos + 4 * count <= data@.len() ==> (r matches Some((v, q)) && q == pos + 4 * count && v@.len() == count
            && forall|k: int| 0 <= k < count ==> #[trigger] v@[k] == le_i32(data@.subrange(pos + 4 * k, pos + 4 * k + 4))),
        pos + 4 * count > data@.len() ==> r is None,
{
    let mut v: Vec<i32> = Vec::new();
    let mut q = pos;
    let dl = data.len();
    let mut k: usize = 0;
    while k < count
        invariant
            dl == data@.len(),
            k <= count,
            q == pos + 4 * k,
            q <= data@.len(),
            v@.len() == k,
            forall|j: int| 0 <= j < k ==> #[trigger] v@[j] == le_i32(data@.subrange(pos + 4 * j, pos + 4 * j + 4)),
        decreases count - k,
    {
        let rd = read_i32(data, q);
        if rd.is_none() {
            assert(pos + 4 * count > data@.len()) by (nonlinear_arith)
                requires
                    q == pos + 4 * k,
                    k < count,
                    q + 4 > data@.len(),
            ;
            return None;
        }
        let (x, next) = rd.unwrap();
        assert(next == q + 4);
        v.push(x);
        q = next;
        k = k + 1;
    }
    Some((v, q))
}

/// What `String::from_utf8_lossy` makes of the bytes `b`: valid UTF-8 decoded, each invalid
/// sequence replaced by U+FFFD.
pub uninterp spec fn lossy_text(b: Seq<u8>) -> Seq<char>;

/// `String::from_utf8_lossy`: the bytes decoded, invalid sequences replaced; valid UTF-8 is
/// decoded as it stands. Beyond that, only the result's dependence on the bytes alone is
/// stated.
#[verifier::external_body]
pub(crate) fn lossy(b: &[u8]) -> (r: String)
    ensures
        r@ == lossy_text(b@),
        vstd::utf8::valid_utf8(b@) ==> r@ == vstd::utf8::decode_utf8(b@),
{
    String::from_utf8_lossy(b).into_owned()
}

/// `s` without its trailing NUL characters.
pub open spec fn trim_nuls(s: Seq<char>) -> Seq<char>
    decreases s.len(),
{
    if s.len() > 0 && s.last() == '\0' {
        trim_nuls(s.drop_last())
    } else {
        s
    }
}

/// The text of an 80-byte record starting at `pos`, trailing NULs dropped, and the position
/// after it; `None` when fewer than 80 bytes remain.
pub fn read_record_string(data: &[u8], pos: usize) -> (r: Option<(String, usize)>)
    ensures
        pos + 80 <= data@.len() ==> (r matches Some((t, q)) && q == pos + 80 && t@ == trim_nuls(
            lossy_text(data@.subrange(pos as int, pos + 80)),
        )),
        pos + 80 > data@.len() ==> r is None,
{
    if pos > data.len() || data.len() - pos < 80 {
        return None;
    }
    let mut buf: Vec<u8> = Vec::new();
    let mut k = pos;
    let end = pos + 80;
    while k < end
        invariant
            pos <= k <= end,
            end == pos + 80,
            end <= data@.len(),
            buf@ == data@.subrange(pos as int, k as int),
        decreases end - k,
    {
        buf.push(data[k]);
        assert(data@.subrange(pos as int, k + 1) =~= data@.subrange(pos as int, k as int).push(data@[k as int]));
        k = k + 1;
    }
    let text = lossy(buf.as_slice());
    let cs = chars_of(text.as_str());
    let mut e: usize = cs.len();
    assert(cs@.subrange(0, cs@.len() as int) =~= cs@);
    while e > 0 && cs[e - 1] == '\0'
        invariant
            e <= cs@.len(),
            trim_nuls(cs@) == trim_nuls(cs@.subrange(0, e as int)),
        decreases e,
    {
        assert(cs@.subrange(0, e as int).drop_last() =~= cs@.subrange(0, e - 1));
        e = e - 1;
    }
    assert(trim_nuls(cs@.subrange(0, e as int)) == cs@.subrange(0, e as int));
    Some((crate::text::string_of(cs.as_slice(), 0, e), pos + 80))
}

/// The position after the 80-byte record at `pos`; `None` when fewer than 80 bytes remain.
pub fn skip_record(data: &[u8], pos: usize) -> (r: Option<usize>)
    ensures
        pos + 80 <= data@.len() ==> r == Some((pos + 80) as usize),
        pos + 80 > data@.len() ==> r is None,
{
    if pos > data.len() || data.len() - pos < 80 {
        None
    } else {
        Some(pos + 80)
    }
}

/// Whether data start like a C-binary file: the text of their first 80 bytes (or fewer)
/// contains `C Binary`.
pub fn is_c_binary(data: &[u8]) -> (r: bool)
    ensures
        r == crate::text::has_sub(
            lossy_text(data@.subrange(0, if data@.len() < 80 { data@.len() as int } else { 80 })),
            "C Binary"@,
        ),
{
    let n: usize = if data.len() < 80 { data.len() } else { 80 };
    let mut buf: Vec<u8> = Vec::new();
    let mut k: usize = 0;
    while k < n
        invariant
            k <= n <= data@.len(),
            buf@ == data@.subrange(0, k as int),
        decreases n - k,
    {
        buf.push(data[k]);
        assert(data@.subrange(0, k + 1) =~= data@.subrange(0, k as int).push(data@[k as int]));
        k = k + 1;
    }
    let text = lossy(buf.as_slice());
    let cs = chars_of(text.as_str());
    crate::text::contains_text(cs.as_slice(), "C Binary")
}

/// Whether data look binary: C-binary, or not valid UTF-8.
pub fn is_probably_binary(data: &[u8]) -> (r: bool)
    ensures
        r == (crate::text::has_sub(
            lossy_text(data@.subrange(0, if data@.len() < 80 { data@.len() as int } else { 80 })),
            "C Binary"@,
        ) || !vstd::utf8::valid_utf8(data@)),
{
    is_c_binary(data) || crate::text::str_from_utf8(data).is_err()
}

} // verus!
