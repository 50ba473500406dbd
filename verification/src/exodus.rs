//! Exodus II element blocks: element classification, block-local node numbering and
//! triangulation.
use vstd::prelude::*;

use crate::error::{parse_error, IoError};
use crate::mesh::{cell_triangles, lemma_cell_triangles, push_cell, shape_nodes, shape_pattern, CellShape};
use crate::text::{chars_of, decimal, decimal_string, starts, starts_with, to_upper, upper_text};

verus! {

/// The cell shape an upper-cased Exodus element type names, by its prefix: `TRI`; `QUAD` or
/// `SHELL`; `TET`; `PYR`; `WEDGE` or `PENTA`; `HEX`. `None` for any other name.
pub open spec fn kind_of_upper(u: Seq<char>) -> Option<CellShape> {
    if starts(u, "TRI"@) {
        Some(CellShape::Tri)
    } else if starts(u, "QUAD"@) || starts(u, "SHELL"@) {
        Some(CellShape::Quad)
    } else if starts(u, "TET"@) {
        Some(CellShape::Tet)
    } else if starts(u, "PYR"@) {
        Some(CellShape::Pyramid)
    } else if starts(u, "WEDGE"@) || starts(u, "PENTA"@) {
        Some(CellShape::Wedge)
    } else if starts(u, "HEX"@) {
        Some(CellShape::Hex)
    } else {
        None
    }
}

/// An upper-cased Exodus element type names its shape by its family prefix: `TRI…` a
/// triangle, `QUAD…` or `SHELL…` a quad, `TET…` a tetrahedron, `PYR…` a pyramid, `WEDGE…` or
/// `PENTA…` a wedge, `HEX…` a hexahedron (so `WEDGE6` is a wedge and `HEX8` a hexahedron);
/// a name with none of these prefixes names no shape.
pub proof fn lemma_kind_by_family(u: Seq<char>)
    ensures
        starts(u, "TRI"@) ==> kind_of_upper(u) == Some(CellShape::Tri),
        starts(u, "QUAD"@) || starts(u, "SHELL"@) ==> kind_of_upper(u) == Some(CellShape::Quad),
        starts(u, "TET"@) ==> kind_of_upper(u) == Some(CellShape::Tet),
        starts(u, "PYR"@) ==> kind_of_upper(u) == Some(CellShape::Pyramid),
        starts(u, "WEDGE"@) || starts(u, "PENTA"@) ==> kind_of_upper(u) == Some(CellShape::Wedge),
        starts(u, "HEX"@) ==> kind_of_upper(u) == Some(CellShape::Hex),
        !(starts(u, "TRI"@) || starts(u, "QUAD"@) || starts(u, "SHELL"@) || starts(u, "TET"@) || starts(u, "PYR"@)
            || starts(u, "WEDGE"@) || starts(u, "PENTA"@) || starts(u, "HEX"@)) ==> kind_of_upper(u) is None,
{
    reveal_strlit("TRI");
    reveal_strlit("QUAD");
    reveal_strlit("SHELL");
    reveal_strlit("TET");
    reveal_strlit("PYR");
    reveal_strlit("WEDGE");
    reveal_strlit("PENTA");
    reveal_strlit("HEX");
    lemma_starts_at(u, "TRI"@);
    lemma_starts_at(u, "QUAD"@);
    lemma_starts_at(u, "SHELL"@);
    lemma_starts_at(u, "TET"@);
    lemma_starts_at(u, "PYR"@);
    lemma_starts_at(u, "WEDGE"@);
    lemma_starts_at(u, "PENTA"@);
    lemma_starts_at(u, "HEX"@);
    if u.len() >= 2 {
        assert(u[0] == u[0] && u[1] == u[1]);
        assert("TRI"@[0] == 'T' && "TRI"@[1] == 'R' && "TET"@[1] == 'E' && "QUAD"@[0] == 'Q' && "SHELL"@[0] == 'S');
        assert("PYR"@[0] == 'P' && "PYR"@[1] == 'Y' && "PENTA"@[1] == 'E' && "WEDGE"@[0] == 'W' && "HEX"@[0] == 'H');
        assert("PENTA"@[0] == 'P' && "TET"@[0] == 'T');
    }
}

proof fn lemma_starts_at(u: Seq<char>, p: Seq<char>)
    ensures
        starts(u, p) ==> forall|i: int| 0 <= i < p.len() ==> #[trigger] u[i] == p[i],
{
    if starts(u, p) {
        assert forall|i: int| 0 <= i < p.len() implies #[trigger] u[i] == p[i] by {
            assert(u.subrange(0, p.len() as int)[i] == u[i]);
        }
    }
}

/// The cell shape assumed for an element with `n` nodes when its type is not named: a
/// 4-node element is taken for a tetrahedron.
pub open spec fn kind_of_count(n: nat) -> Option<CellShape> {
    if n == 3 || n == 7 {
        Some(CellShape::Tri)
    } else if n == 4 || n == 10 || n == 11 {
        Some(CellShape::Tet)
    } else if n == 5 || n == 13 || n == 14 {
        Some(CellShape::Pyramid)
    } else if n == 6 || n == 15 || n == 16 || n == 21 {
        Some(CellShape::Wedge)
    } else if n == 8 || n == 20 || n == 27 {
        Some(CellShape::Hex)
    } else {
        None
    }
}

/// An element classified by its node count has at least the nodes of the shape it is taken
/// for, and the node count of each shape's linear element other than a quad (which shares its
/// count with the tetrahedron) classifies as that shape.
pub proof fn lemma_kind_by_count(n: nat, c: CellShape)
    ensures
        kind_of_count(n) == Some(c) ==> n >= shape_nodes(c),
        c != CellShape::Quad ==> kind_of_count(shape_nodes(c)) == Some(c),
{
}

/// The cell shape of an element named by the upper-cased type `u` (see [`kind_of_upper`]).
pub fn kind_from_upper(u: &str) -> (k: Option<CellShape>)
    ensures
        k == kind_of_upper(u@),
{
    let s = chars_of(u);
    let s = s.as_slice();
    if starts_with(s, "TRI") {
        Some(CellShape::Tri)
    } else if starts_with(s, "QUAD") || starts_with(s, "SHELL") {
        Some(CellShape::Quad)
    } else if starts_with(s, "TET") {
        Some(CellShape::Tet)
    } else if starts_with(s, "PYR") {
        Some(CellShape::Pyramid)
    } else if starts_with(s, "WEDGE") || starts_with(s, "PENTA") {
        Some(CellShape::Wedge)
    } else if starts_with(s, "HEX") {
        Some(CellShape::Hex)
    } else {
        None
    }
}

/// The cell shape an Exodus element type names, read without regard to case: the name is
/// upper-cased, then classified by [`kind_from_upper`].
pub fn classify_element_type(elem_type: &str) -> (k: Option<CellShape>)
    ensures
        k == kind_of_upper(upper_text(elem_type@)),
{
    let u = to_upper(elem_type);
    kind_from_upper(u.as_str())
}

/// The cell shape assumed for an element with `n` nodes (see [`kind_of_count`]).
pub fn classify_by_node_count(n: usize) -> (k: Option<CellShape>)
    ensures
        k == kind_of_count(n as nat),
{
    if n == 3 || n == 7 {
        Some(CellShape::Tri)
    } else if n == 4 || n == 10 || n == 11 {
        Some(CellShape::Tet)
    } else if n == 5 || n == 13 || n == 14 {
        Some(CellShape::Pyramid)
    } else if n == 6 || n == 15 || n == 16 || n == 21 {
        Some(CellShape::Wedge)
    } else if n == 8 || n == 20 || n == 27 {
        Some(CellShape::Hex)
    } else {
        None
    }
}

/// The triangles one element of shape `kind` contributes: none when it has fewer than
/// `nodes_per_elem` node indices or no known shape.
pub open spec fn element_triangles(kind: Option<CellShape>, nodes_per_elem: nat, local: Seq<u32>) -> Seq<u32> {
    if local.len() < nodes_per_elem {
        Seq::empty()
    } else {
        match kind {
            Some(c) => cell_triangles(c, local),
            None => Seq::empty(),
        }
    }
}

/// The shape an element of a block takes: named by the block's upper-cased type when it has
/// one, else guessed from the node count.
pub open spec fn block_kind(upper: Seq<char>, nodes_per_elem: nat) -> Option<CellShape> {
    if upper.len() > 0 {
        kind_of_upper(upper_text(upper))
    } else {
        kind_of_count(nodes_per_elem)
    }
}

/// Appends the triangles of one element whose block-local node indices are `local`.
pub fn triangulate_element(kind: Option<CellShape>, nodes_per_elem: usize, local: &[u32], out: &mut Vec<u32>)
    requires
        kind matches Some(c) ==> local@.len() >= nodes_per_elem ==> local@.len() >= shape_nodes(c),
    ensures
        final(out)@ == old(out)@ + element_triangles(kind, nodes_per_elem as nat, local@),
{
    if local.len() < nodes_per_elem {
        assert(old(out)@ + Seq::<u32>::empty() =~= old(out)@);
        return ;
    }
    match kind {
        Some(c) => push_cell(c, local, out),
        None => {
            assert(old(out)@ + Seq::<u32>::empty() =~= old(out)@);
        },
    }
}

/// Ascending with no value twice.
pub open spec fn strictly_ascending(s: Seq<i32>) -> bool {
    forall|a: int, b: int| 0 <= a < b < s.len() ==> s[a] < s[b]
}

/// Ascending, repeats allowed.
pub open spec fn ascending(s: Seq<i32>) -> bool {
    forall|a: int, b: int| 0 <= a < b < s.len() ==> s[a] <= s[b]
}

/// `slice::sort_unstable`: sorts the values into ascending order.
#[verifier::external_body]
fn sort_values(v: &mut Vec<i32>)
    ensures
        ascending(final(v)@),
        final(v)@.to_multiset() == old(v)@.to_multiset(),
{
    v.sort_unstable();
}

/// The distinct values of an ascending sequence, in order.
fn distinct_ascending(v: &Vec<i32>) -> (r: Vec<i32>)
    requires
        ascending(v@),
    ensures
        strictly_ascending(r@),
        forall|x: i32| r@.contains(x) <==> v@.contains(x),
{
    let mut r: Vec<i32> = Vec::new();
    let mut i: usize = 0;
    while i < v.len()
        invariant
            i <= v@.len(),
            ascending(v@),
            strictly_ascending(r@),
            forall|x: i32| r@.contains(x) <==> v@.subrange(0, i as int).contains(x),
            i > 0 ==> r@.len() > 0 && r@.last() == v@[i - 1],
            i == 0 ==> r@.len() == 0,
        decreases v@.len() - i,
    {
        let x = v[i];
        let ghost before = r@;
        if r.len() == 0 || r[r.len() - 1] != x {
            r.push(x);
            assert forall|a: int, b: int| 0 <= a < b < r@.len() implies r@[a] < r@[b] by {
                if b == r@.len() - 1 && a < b {
                    assert(before[a] <= before.last());
                    assert(v@[i - 1] <= x);
                }
            }
        }
        proof {
            let pre = v@.subrange(0, i as int);
            let pre1 = v@.subrange(0, i + 1);
            assert(pre1 =~= pre.push(x));
            assert forall|y: i32| r@.contains(y) <==> pre1.contains(y) by {
                if pre1.contains(y) {
                    let t = choose|t: int| 0 <= t < pre1.len() && #[trigger] pre1[t] == y;
                    if t < i {
                        assert(pre[t] == y);
                        assert(pre.contains(y));
                        assert(before.contains(y));
                        let u = choose|u: int| 0 <= u < before.len() && #[trigger] before[u] == y;
                        assert(r@[u] == y);
                    } else {
                        assert(r@[r@.len() - 1] == x);
                    }
                }
                if r@.contains(y) {
                    let t = choose|t: int| 0 <= t < r@.len() && #[trigger] r@[t] == y;
                    if t < before.len() {
                        assert(before[t] == y);
                        assert(before.contains(y));
                        assert(pre.contains(y));
                        let u = choose|u: int| 0 <= u < pre.len() && #[trigger] pre[u] == y;
                        assert(pre1[u] == y);
                    } else {
                        assert(pre1[i as int] == y);
                    }
                }
            }
        }
        i = i + 1;
    }
    assert(v@.subrange(0, v@.len() as int) =~= v@);
    r
}

/// The position of `x` in the strictly ascending `g`, which holds it.
pub open spec fn rank(g: Seq<i32>, x: i32) -> int {
    choose|i: int| 0 <= i < g.len() && g[i] == x
}

proof fn lemma_rank(g: Seq<i32>, i: int)
    requires
        strictly_ascending(g),
        0 <= i < g.len(),
    ensures
        rank(g, g[i]) == i,
{
    let j = rank(g, g[i]);
    assert(0 <= j < g.len() && g[j] == g[i]);
    if j < i {
        assert(g[j] < g[i]);
    }
    if i < j {
        assert(g[i] < g[j]);
    }
}

/// Binary search for `x` in the strictly ascending `g`, which holds it.
fn position_of(g: &Vec<i32>, x: i32) -> (p: usize)
    requires
        strictly_ascending(g@),
        g@.contains(x),
    ensures
        p < g@.len(),
        g@[p as int] == x,
        p == rank(g@, x),
{
    let mut lo: usize = 0;
    let mut hi: usize = g.len() - 1;
    while lo < hi
        invariant
            strictly_ascending(g@),
            hi < g@.len(),
            lo <= hi,
            exists|t: int| lo <= t <= hi && g@[t] == x,
        decreases hi - lo,
    {
        let mid = lo + (hi - lo) / 2;
        if g[mid] < x {
            lo = mid + 1;
        } else {
            hi = mid;
        }
    }
    proof {
        lemma_rank(g@, lo as int);
    }
    lo
}

/// The block-local indices of the global node numbers `s`: each number's position among the
/// block's distinct numbers.
pub open spec fn local_indices(g: Seq<i32>, s: Seq<i32>) -> Seq<u32> {
    s.map_values(|x: i32| rank(g, x) as u32)
}

/// The triangles of the first `k` elements of a block with `npe` nodes per element.
pub open spec fn block_triangles(kind: Option<CellShape>, conn: Seq<i32>, npe: nat, g: Seq<i32>, k: nat) -> Seq<u32>
    decreases k,
{
    if k == 0 {
        Seq::empty()
    } else {
        block_triangles(kind, conn, npe, g, (k - 1) as nat) + element_triangles(
            kind,
            npe,
            local_indices(g, conn.subrange((k - 1) * npe, (k * npe) as int)),
        )
    }
}

/// `g` lists the distinct values of `conn` in ascending order.
pub open spec fn block_nodes(g: Seq<i32>, conn: Seq<i32>) -> bool {
    strictly_ascending(g) && forall|x: i32| g.contains(x) <==> conn.contains(x)
}

/// The distinct values of `conn` in ascending order.
pub open spec fn node_list(conn: Seq<i32>) -> Seq<i32> {
    choose|g: Seq<i32>| block_nodes(g, conn)
}

/// Whether a block yields a mesh: its elements fit their shape and give at least one
/// triangle.
pub open spec fn block_yields(kind: Option<CellShape>, conn: Seq<i32>, npe: nat) -> bool {
    &&& block_fits(kind, npe)
    &&& block_triangles(kind, conn, npe, node_list(conn), conn.len() / npe).len() > 0
}

/// The error of a block that yields no surface: no nodes per element, fewer nodes per element
/// than its shape has, or no triangle.
pub open spec fn block_error(kind: Option<CellShape>, npe: nat) -> Seq<char> {
    if npe == 0 {
        "Exodus II parse error: element block has no nodes per element"@
    } else if kind matches Some(c) && npe < shape_nodes(c) {
        "Exodus II parse error: element block has fewer nodes per element than its type"@
    } else {
        "empty dataset"@
    }
}

/// The surface mesh of one element block.
pub struct BlockMesh {
    /// The block's distinct global node numbers (1-based), ascending: the block's points, in
    /// block-local order.
    pub node_ids: Vec<i32>,
    /// Triangle corner indices into the block's points.
    pub indices: Vec<u32>,
}

/// When a block of `nodes_per_elem`-node elements of shape `kind` can be triangulated: every
/// element has enough nodes for its shape.
pub open spec fn block_fits(kind: Option<CellShape>, nodes_per_elem: nat) -> bool {
    &&& nodes_per_elem > 0
    &&& kind matches Some(c) ==> nodes_per_elem >= shape_nodes(c)
}

proof fn lemma_chunk(k: int, npe: int, len: int)
    requires
        npe > 0,
        len >= 0,
        0 <= k < len / npe,
    ensures
        0 <= k * npe,
        k * npe + npe <= len,
        (k + 1) * npe == k * npe + npe,
{
    assert((k + 1) * npe == k * npe + npe) by (nonlinear_arith);
    assert(k * npe >= 0) by (nonlinear_arith)
        requires
            k >= 0,
            npe > 0,
    ;
    assert((k + 1) * npe <= (len / npe) * npe) by (nonlinear_arith)
        requires
            k + 1 <= len / npe,
            npe > 0,
    ;
    assert((len / npe) * npe <= len) by (nonlinear_arith)
        requires
            npe > 0,
    ;
}

/// The surface mesh of an element block whose elements have shape `kind` and
/// `nodes_per_elem` 1-based global node numbers each, listed in `connectivity`. The block's
/// points are its distinct node numbers in ascending order; each element is renumbered to
/// those positions and triangulated, trailing numbers that fill no element ignored. Fails
/// when the block yields no triangle, and when its elements are too short for their shape.
pub fn read_element_block(connectivity: &[i32], nodes_per_elem: usize, kind: Option<CellShape>) -> (r: Result<BlockMesh, IoError>)
    ensures
        r is Ok <==> block_yields(kind, connectivity@, nodes_per_elem as nat),
        r matches Err(e) ==> e matches IoError::Parse(m) && m@ == block_error(kind, nodes_per_elem as nat),
        r matches Ok(m) ==> {
            &&& block_nodes(m.node_ids@, connectivity@)
            &&& m.node_ids@ == node_list(connectivity@)
            &&& m.indices@ == block_triangles(
                kind,
                connectivity@,
                nodes_per_elem as nat,
                node_list(connectivity@),
                connectivity@.len() / (nodes_per_elem as nat),
            )
        },
{
    if nodes_per_elem == 0 {
        return Err(parse_error("Exodus II parse error: element block has no nodes per element"));
    }
    match kind {
        Some(c) => {
            if nodes_per_elem < crate::mesh::shape_node_count(c) {
                return Err(parse_error("Exodus II parse error: element block has fewer nodes per element than its type"));
            }
        },
        None => {},
    }
    let mut all: Vec<i32> = Vec::new();
    let mut t: usize = 0;
    while t < connectivity.len()
        invariant
            t <= connectivity@.len(),
            all@ == connectivity@.subrange(0, t as int),
        decreases connectivity@.len() - t,
    {
        all.push(connectivity[t]);
        assert(connectivity@.subrange(0, t + 1) =~= connectivity@.subrange(0, t as int).push(connectivity@[t as int]));
        t = t + 1;
    }
    assert(connectivity@.subrange(0, connectivity@.len() as int) =~= connectivity@);
    let ghost unsorted = all@;
    sort_values(&mut all);
    proof {
        assert forall|x: i32| all@.contains(x) <==> connectivity@.contains(x) by {
            assert(all@.to_multiset().count(x) == unsorted.to_multiset().count(x));
            vstd::seq_lib::to_multiset_contains(all@, x);
            vstd::seq_lib::to_multiset_contains(unsorted, x);
        }
    }
    let g = distinct_ascending(&all);
    let ghost gv = g@;
    proof {
        assert(block_nodes(gv, connectivity@));
        lemma_same_distinct(node_list(connectivity@), gv);
    }
    let len = connectivity.len();
    let count = len / nodes_per_elem;
    let mut out: Vec<u32> = Vec::new();
    let mut k: usize = 0;
    while k < count
        invariant
            len == connectivity@.len(),
            nodes_per_elem > 0,
            count == len / nodes_per_elem,
            block_fits(kind, nodes_per_elem as nat),
            g@ == gv,
            strictly_ascending(gv),
            forall|x: i32| gv.contains(x) <==> connectivity@.contains(x),
            k <= count,
            out@ == block_triangles(kind, connectivity@, nodes_per_elem as nat, gv, k as nat),
        decreases count - k,
    {
        proof {
            lemma_chunk(k as int, nodes_per_elem as int, len as int);
        }
        let start = k * nodes_per_elem;
        let end = start + nodes_per_elem;
        let mut local: Vec<u32> = Vec::new();
        let mut m = start;
        while m < end
            invariant
                start <= m <= end,
                end <= connectivity@.len(),
                g@ == gv,
                strictly_ascending(gv),
                forall|x: i32| gv.contains(x) <==> connectivity@.contains(x),
                local@ == local_indices(gv, connectivity@.subrange(start as int, m as int)),
            decreases end - m,
        {
            let x = connectivity[m];
            assert(connectivity@.contains(x)) by {
                assert(connectivity@[m as int] == x);
            }
            let p = position_of(&g, x);
            local.push(p as u32);
            assert(local_indices(gv, connectivity@.subrange(start as int, m + 1)) =~= local_indices(
                gv,
                connectivity@.subrange(start as int, m as int),
            ).push(rank(gv, x) as u32));
            m = m + 1;
        }
        triangulate_element(kind, nodes_per_elem, local.as_slice(), &mut out);
        proof {
            assert(((k + 1) as nat - 1) * (nodes_per_elem as nat) == start);
        }
        assert(out@ == block_triangles(kind, connectivity@, nodes_per_elem as nat, gv, (k + 1) as nat));
        k = k + 1;
    }
    if out.len() == 0 {
        return Err(parse_error("empty dataset"));
    }
    Ok(BlockMesh { node_ids: g, indices: out })
}

proof fn lemma_spread(g: Seq<i32>, i: int)
    requires
        strictly_ascending(g),
        0 <= i < g.len(),
    ensures
        g[i] >= g[0] + i,
    decreases i,
{
    if i > 0 {
        lemma_spread(g, i - 1);
        assert(g[i - 1] < g[i]);
    }
}

proof fn lemma_rank_below(g: Seq<i32>, x: i32)
    requires
        strictly_ascending(g),
        g.contains(x),
    ensures
        0 <= rank(g, x) < g.len(),
        (rank(g, x) as u32) as int == rank(g, x),
{
    let t = choose|t: int| 0 <= t < g.len() && g[t] == x;
    assert(0 <= t < g.len() && g[t] == x);
    let r = rank(g, x);
    lemma_spread(g, r);
}

/// Every triangle index of an element block names one of the block's points: renumbering
/// maps each element's node numbers into the block's distinct numbers `g`, so each index is
/// below `g.len()`.
pub proof fn lemma_block_indices_in_range(kind: Option<CellShape>, conn: Seq<i32>, npe: nat, g: Seq<i32>, k: nat)
    requires
        block_nodes(g, conn),
        block_fits(kind, npe),
        k <= conn.len() / npe,
    ensures
        forall|t: int|
            0 <= t < block_triangles(kind, conn, npe, g, k).len() ==> (#[trigger] block_triangles(
                kind,
                conn,
                npe,
                g,
                k,
            )[t] as int) < g.len(),
    decreases k,
{
    if k > 0 {
        lemma_block_indices_in_range(kind, conn, npe, g, (k - 1) as nat);
        lemma_chunk(k - 1, npe as int, conn.len() as int);
        let prev = block_triangles(kind, conn, npe, g, (k - 1) as nat);
        let chunk = conn.subrange((k - 1) * npe, (k * npe) as int);
        let local = local_indices(g, chunk);
        assert forall|i: int| 0 <= i < local.len() implies (#[trigger] local[i] as int) < g.len() by {
            assert(conn[(k - 1) * npe + i] == chunk[i]);
            assert(conn.contains(chunk[i]));
            lemma_rank_below(g, chunk[i]);
        }
        let tri = element_triangles(kind, npe, local);
        match kind {
            Some(c) => {
                if local.len() >= npe {
                    lemma_cell_triangles(c, local);
                }
            },
            None => {},
        }
        assert forall|t: int| 0 <= t < tri.len() implies (#[trigger] tri[t] as int) < g.len() by {
            match kind {
                Some(c) => {
                    assert(0 <= shape_pattern(c)[t] < shape_nodes(c));
                },
                None => {},
            }
        }
        let all = block_triangles(kind, conn, npe, g, k);
        assert(all == prev + tri);
        assert forall|t: int| 0 <= t < all.len() implies (#[trigger] all[t] as int) < g.len() by {
            if t < prev.len() {
                assert(all[t] == prev[t]);
            } else {
                assert(all[t] == tri[t - prev.len()]);
            }
        }
    }
}

/// Two strictly ascending sequences holding the same values are equal.
proof fn lemma_same_distinct(a: Seq<i32>, b: Seq<i32>)
    requires
        strictly_ascending(a),
        strictly_ascending(b),
        forall|x: i32| a.contains(x) <==> b.contains(x),
    ensures
        a == b,
    decreases a.len() + b.len(),
{
    if a.len() == 0 || b.len() == 0 {
        if a.len() > 0 {
            assert(a.contains(a[0]));
        }
        if b.len() > 0 {
            assert(b.contains(b[0]));
        }
        assert(a =~= b);
    } else {
        let (x, y) = (a.last(), b.last());
        assert(a.contains(x));
        assert(b.contains(y));
        let i = choose|i: int| 0 <= i < b.len() && b[i] == x;
        let j = choose|j: int| 0 <= j < a.len() && a[j] == y;
        assert(x == y) by {
            if i < b.len() - 1 {
                assert(b[i] < y);
                assert(a[j] <= x);
            }
            if j < a.len() - 1 {
                assert(a[j] < x);
                assert(b[i] <= y);
            }
        }
        let (a2, b2) = (a.drop_last(), b.drop_last());
        assert forall|z: i32| a2.contains(z) <==> b2.contains(z) by {
            if a2.contains(z) {
                let t = choose|t: int| 0 <= t < a2.len() && a2[t] == z;
                assert(a[t] < x);
                assert(a.contains(z));
                let u = choose|u: int| 0 <= u < b.len() && b[u] == z;
                if u == b.len() - 1 {
                    assert(false);
                }
                assert(b2[u] == z);
            }
            if b2.contains(z) {
                let t = choose|t: int| 0 <= t < b2.len() && b2[t] == z;
                assert(b[t] < y);
                assert(b.contains(z));
                let u = choose|u: int| 0 <= u < a.len() && a[u] == z;
                if u == a.len() - 1 {
                    assert(false);
                }
                assert(a2[u] == z);
            }
        }
        lemma_same_distinct(a2, b2);
        assert(a =~= a2.push(x));
        assert(b =~= b2.push(y));
    }
}


/// What the decoder reads of one element block (`connect{n}`) besides point values.
pub struct ElementBlock {
    /// The block's 1-based global node numbers, element after element.
    pub connectivity: Vec<i32>,
    /// The number of nodes of each element (the second extent of the connectivity array).
    pub nodes_per_elem: usize,
    /// The block's `elem_type` attribute as stored; empty when absent.
    pub elem_type: String,
}

/// The shape of a block's elements: its type attribute is upper-cased when read, and the
/// upper-cased name (upper-cased again) classifies the elements; an empty name falls back to
/// the node count.
pub open spec fn shape_of_block(b: ElementBlock) -> Option<CellShape> {
    block_kind(upper_text(b.elem_type@), b.nodes_per_elem as nat)
}

/// The first `n` blocks that yield a mesh, with their connectivity and shape.
pub open spec fn yielding_blocks(blocks: Seq<ElementBlock>, n: nat) -> Seq<ElementBlock>
    decreases n,
{
    if n == 0 {
        Seq::empty()
    } else {
        let b = blocks[n - 1];
        yielding_blocks(blocks, (n - 1) as nat) + if block_yields(
            shape_of_block(b),
            b.connectivity@,
            b.nodes_per_elem as nat,
        ) {
            seq![b]
        } else {
            Seq::empty()
        }
    }
}

/// The positions, among the first `n` blocks, of those that yield a mesh.
pub open spec fn yielding_indices(blocks: Seq<ElementBlock>, n: nat) -> Seq<usize>
    decreases n,
{
    if n == 0 {
        Seq::empty()
    } else {
        let b = blocks[n - 1];
        yielding_indices(blocks, (n - 1) as nat) + if block_yields(
            shape_of_block(b),
            b.connectivity@,
            b.nodes_per_elem as nat,
        ) {
            seq![(n - 1) as usize]
        } else {
            Seq::empty()
        }
    }
}

/// The mesh of a block that yields one.
pub open spec fn mesh_is(m: BlockMesh, b: ElementBlock) -> bool {
    &&& m.node_ids@ == node_list(b.connectivity@)
    &&& m.indices@ == block_triangles(
        shape_of_block(b),
        b.connectivity@,
        b.nodes_per_elem as nat,
        node_list(b.connectivity@),
        b.connectivity@.len() / (b.nodes_per_elem as nat),
    )
}

/// The shape of a block's elements (see [`shape_of_block`]).
pub fn block_shape(b: &ElementBlock) -> (k: Option<CellShape>)
    ensures
        k == shape_of_block(*b),
{
    let upper = to_upper(b.elem_type.as_str());
    if chars_of(upper.as_str()).len() > 0 {
        classify_element_type(upper.as_str())
    } else {
        classify_by_node_count(b.nodes_per_elem)
    }
}

/// The meshes of an Exodus II file's element blocks, in block order, each with the position
/// of its block, leaving out the blocks that yield none (see [`read_element_block`]). Fails
/// with a parse error when no block yields a mesh.
pub fn datasets_from_path(blocks: &[ElementBlock]) -> (r: Result<Vec<(usize, BlockMesh)>, IoError>)
    ensures
        yielding_blocks(blocks@, blocks@.len()).len() == 0 ==> (r matches Err(IoError::Parse(m)) && m@
            == "empty dataset"@),
        yielding_blocks(blocks@, blocks@.len()).len() > 0 ==> (r matches Ok(v) && v@.len()
            == yielding_blocks(blocks@, blocks@.len()).len() && forall|k: int|
            0 <= k < v@.len() ==> (#[trigger] v@[k]).0 == yielding_indices(blocks@, blocks@.len())[k]
                && mesh_is(v@[k].1, yielding_blocks(blocks@, blocks@.len())[k])),
{
    let mut out: Vec<(usize, BlockMesh)> = Vec::new();
    let mut i: usize = 0;
    while i < blocks.len()
        invariant
            i <= blocks@.len(),
            out@.len() == yielding_blocks(blocks@, i as nat).len(),
            yielding_indices(blocks@, i as nat).len() == yielding_blocks(blocks@, i as nat).len(),
            forall|k: int| 0 <= k < out@.len() ==> (#[trigger] out@[k]).0 == yielding_indices(blocks@, i as nat)[k]
                && mesh_is(out@[k].1, yielding_blocks(blocks@, i as nat)[k]),
        decreases blocks@.len() - i,
    {
        let b = &blocks[i];
        let kind = block_shape(b);
        let ghost prev = out@;
        match read_element_block(b.connectivity.as_slice(), b.nodes_per_elem, kind) {
            Ok(m) => {
                out.push((i, m));
            },
            Err(_) => {},
        }
        proof {
            let ys = yielding_blocks(blocks@, (i + 1) as nat);
            let ys0 = yielding_blocks(blocks@, i as nat);
            let is = yielding_indices(blocks@, (i + 1) as nat);
            let is0 = yielding_indices(blocks@, i as nat);
            if block_yields(shape_of_block(*b), b.connectivity@, b.nodes_per_elem as nat) {
                assert(ys =~= ys0.push(*b));
                assert(is =~= is0.push(i));
                assert forall|k: int| 0 <= k < out@.len() implies (#[trigger] out@[k]).0 == is[k] && mesh_is(
                    out@[k].1,
                    ys[k],
                ) by {
                    if k < prev.len() {
                        assert(out@[k] == prev[k]);
                    }
                }
            } else {
                assert(ys =~= ys0);
                assert(is =~= is0);
            }
        }
        i = i + 1;
    }
    if out.len() == 0 {
        return Err(parse_error("empty dataset"));
    }
    Ok(out)
}

/// The timestep selectors of an Exodus II file with `time_count` time values: `"0"`, `"1"`,
/// ... one per value, or the single selector `"0"` (time 0) when it has none.
pub fn read_series(time_count: usize) -> (r: Vec<String>)
    ensures
        time_count == 0 ==> r@.len() == 1 && r@[0]@ == decimal(0),
        time_count > 0 ==> r@.len() == time_count && forall|i: int|
            0 <= i < time_count ==> (#[trigger] r@[i])@ == decimal(i as nat),
{
    let mut r: Vec<String> = Vec::new();
    if time_count == 0 {
        r.push(decimal_string(0));
        return r;
    }
    let mut i: usize = 0;
    while i < time_count
        invariant
            i <= time_count,
            r@.len() == i,
            forall|j: int| 0 <= j < i ==> (#[trigger] r@[j])@ == decimal(j as nat),
        decreases time_count - i,
    {
        r.push(decimal_string(i));
        i = i + 1;
    }
    r
}

} // verus!
