//! Tecplot ASCII files: variables, zone headers, point and block data, finite-element
//! connectivity, and the triangles of each zone.
use vstd::prelude::*;

use crate::error::{parse_error, IoError};
use crate::mesh::{cell_triangles, grid_cells, lemma_grid_cells, push_cell, row_cells, shape_nodes, CellShape};
use crate::text::{
    chars_of, decimal_string, starts, starts_with, string_of, to_upper, trim, trimmed, upper_text,
};

verus! {

/// A separator between variable names: space, comma or tab.
pub open spec fn is_name_sep(c: char) -> bool {
    c == ' ' || c == ',' || c == '\t'
}

/// The position of the first `"` at or after `j`, or the end of `s`.
pub open spec fn quote_end(s: Seq<char>, j: int) -> int
    decreases s.len() - j,
{
    if j < 0 || j >= s.len() || s[j] == '"' {
        j
    } else {
        quote_end(s, j + 1)
    }
}

/// The position of the first separator at or after `j`, or the end of `s`.
pub open spec fn bare_end(s: Seq<char>, j: int) -> int
    decreases s.len() - j,
{
    if j < 0 || j >= s.len() || is_name_sep(s[j]) {
        j
    } else {
        bare_end(s, j + 1)
    }
}

/// The variable names listed in `s[i..]`: separators are skipped; a name opened by `"` runs
/// to the next `"` (or the end) and may hold separators; any other name runs to the next
/// separator.
pub open spec fn names_from(s: Seq<char>, i: int) -> Seq<Seq<char>>
    decreases s.len() - i,
{
    if i < 0 || i >= s.len() {
        Seq::empty()
    } else if is_name_sep(s[i]) {
        names_from(s, i + 1)
    } else if s[i] == '"' {
        let e = quote_end(s, i + 1);
        if i < e <= s.len() {
            seq![s.subrange(i + 1, e)] + names_from(s, if e < s.len() { e + 1 } else { e })
        } else {
            Seq::empty()
        }
    } else {
        let e = bare_end(s, i);
        if i < e <= s.len() {
            seq![s.subrange(i, e)] + names_from(s, e)
        } else {
            Seq::empty()
        }
    }
}

proof fn lemma_quote_end(s: Seq<char>, j: int)
    requires
        0 <= j <= s.len(),
    ensures
        j <= quote_end(s, j) <= s.len(),
        quote_end(s, j) < s.len() ==> s[quote_end(s, j)] == '"',
    decreases s.len() - j,
{
    if j < s.len() && s[j] != '"' {
        lemma_quote_end(s, j + 1);
    }
}

proof fn lemma_bare_end(s: Seq<char>, j: int)
    requires
        0 <= j <= s.len(),
    ensures
        j <= bare_end(s, j) <= s.len(),
        bare_end(s, j) < s.len() ==> is_name_sep(s[bare_end(s, j)]),
    decreases s.len() - j,
{
    if j < s.len() && !is_name_sep(s[j]) {
        lemma_bare_end(s, j + 1);
    }
}

/// The names of a `VARIABLES` list: quoted names keep what lies between their quotes,
/// unquoted names end at a space, comma or tab.
pub fn parse_variable_names(s: &str) -> (r: Vec<String>)
    ensures
        r@.len() == names_from(s@, 0).len(),
        forall|k: int| 0 <= k < r@.len() ==> (#[trigger] r@[k])@ == names_from(s@, 0)[k],
{
    let cs = chars_of(s);
    let n = cs.len();
    let mut r: Vec<String> = Vec::new();
    let ghost mut done: Seq<Seq<char>> = Seq::empty();
    let mut i: usize = 0;
    while i < n
        invariant
            n == cs@.len(),
            cs@ == s@,
            i <= n,
            names_from(s@, 0) == done + names_from(s@, i as int),
            r@.len() == done.len(),
            forall|k: int| 0 <= k < r@.len() ==> (#[trigger] r@[k])@ == done[k],
        decreases n - i,
    {
        let c = cs[i];
        if c == ' ' || c == ',' || c == '\t' {
            i = i + 1;
        } else if c == '"' {
            proof {
                lemma_quote_end(s@, i + 1);
            }
            let mut j = i + 1;
            while j < n && cs[j] != '"'
                invariant
                    i < j <= n,
                    n == cs@.len(),
                    cs@ == s@,
                    quote_end(s@, i + 1) == quote_end(s@, j as int),
                decreases n - j,
            {
                j = j + 1;
            }
            let name = string_of(cs.as_slice(), i + 1, j);
            let next = if j < n { j + 1 } else { j };
            proof {
                assert(done + names_from(s@, i as int) =~= done.push(name@) + names_from(s@, next as int));
                done = done.push(name@);
            }
            r.push(name);
            i = next;
        } else {
            proof {
                lemma_bare_end(s@, i as int);
            }
            let mut j = i;
            while j < n && !(cs[j] == ' ' || cs[j] == ',' || cs[j] == '\t')
                invariant
                    i <= j <= n,
                    n == cs@.len(),
                    cs@ == s@,
                    bare_end(s@, i as int) == bare_end(s@, j as int),
                decreases n - j,
            {
                j = j + 1;
            }
            let name = string_of(cs.as_slice(), i, j);
            proof {
                assert(done + names_from(s@, i as int) =~= done.push(name@) + names_from(s@, j as int));
                done = done.push(name@);
            }
            r.push(name);
            i = j;
        }
    }
    assert(done + names_from(s@, i as int) =~= done);
    r
}

/// A Tecplot finite-element zone type.
#[derive(Clone, Copy, Debug, PartialEq, Eq, Structural)]
pub enum ElementType {
    /// Three-node triangles.
    Triangle,
    /// Four-node quadrilaterals.
    Quadrilateral,
    /// Four-node tetrahedra.
    Tetrahedron,
    /// Eight-node bricks.
    Brick,
}

/// The zone type an upper-cased `ET`/`ZONETYPE` value names.
pub open spec fn element_type_of(u: Seq<char>) -> Option<ElementType> {
    if u == "TRIANGLE"@ || u == "FETRIANGLE"@ {
        Some(ElementType::Triangle)
    } else if u == "QUADRILATERAL"@ || u == "FEQUADRILATERAL"@ {
        Some(ElementType::Quadrilateral)
    } else if u == "TETRAHEDRON"@ || u == "FETETRAHEDRON"@ {
        Some(ElementType::Tetrahedron)
    } else if u == "BRICK"@ || u == "FEBRICK"@ {
        Some(ElementType::Brick)
    } else {
        None
    }
}

/// The cell shape of a zone type.
pub open spec fn shape_of(et: ElementType) -> CellShape {
    match et {
        ElementType::Triangle => CellShape::Tri,
        ElementType::Quadrilateral => CellShape::Quad,
        ElementType::Tetrahedron => CellShape::Tet,
        ElementType::Brick => CellShape::Hex,
    }
}

impl ElementType {
    /// The number of nodes an element of this type lists.
    pub fn nodes_per(&self) -> (n: usize)
        ensures
            n == shape_nodes(shape_of(*self)),
    {
        match self {
            ElementType::Triangle => 3,
            ElementType::Quadrilateral => 4,
            ElementType::Tetrahedron => 4,
            ElementType::Brick => 8,
        }
    }
}

fn shape_of_type(et: ElementType) -> (c: CellShape)
    ensures
        c == shape_of(et),
{
    match et {
        ElementType::Triangle => CellShape::Tri,
        ElementType::Quadrilateral => CellShape::Quad,
        ElementType::Tetrahedron => CellShape::Tet,
        ElementType::Brick => CellShape::Hex,
    }
}

/// The zone type named by the upper-cased value `u` (see [`element_type_of`]).
pub fn element_type_from_upper(u: &str) -> (r: Option<ElementType>)
    ensures
        r == element_type_of(u@),
{
    let s = chars_of(u);
    let s = s.as_slice();
    let n = s.len();
    if crate::text::range_is(s, 0, n, "TRIANGLE") || crate::text::range_is(s, 0, n, "FETRIANGLE") {
        assert(s@.subrange(0, n as int) =~= u@);
        Some(ElementType::Triangle)
    } else if crate::text::range_is(s, 0, n, "QUADRILATERAL") || crate::text::range_is(s, 0, n, "FEQUADRILATERAL") {
        assert(s@.subrange(0, n as int) =~= u@);
        Some(ElementType::Quadrilateral)
    } else if crate::text::range_is(s, 0, n, "TETRAHEDRON") || crate::text::range_is(s, 0, n, "FETETRAHEDRON") {
        assert(s@.subrange(0, n as int) =~= u@);
        Some(ElementType::Tetrahedron)
    } else if crate::text::range_is(s, 0, n, "BRICK") || crate::text::range_is(s, 0, n, "FEBRICK") {
        assert(s@.subrange(0, n as int) =~= u@);
        Some(ElementType::Brick)
    } else {
        assert(s@.subrange(0, n as int) =~= u@);
        None
    }
}

/// The zone type an `ET`/`ZONETYPE` value names, read without regard to case.
pub fn parse_element_type(s: &str) -> (r: Option<ElementType>)
    ensures
        r == element_type_of(upper_text(s@)),
{
    let u = to_upper(s);
    element_type_from_upper(u.as_str())
}


/// The triangles of the first `k` elements of a zone of type `et`.
pub open spec fn fe_triangles(et: ElementType, conn: Seq<u32>, k: nat) -> Seq<u32>
    decreases k,
{
    let npe = shape_nodes(shape_of(et));
    if k == 0 {
        Seq::empty()
    } else {
        fe_triangles(et, conn, (k - 1) as nat) + cell_triangles(
            shape_of(et),
            conn.subrange((k - 1) * npe, (k * npe) as int),
        )
    }
}

/// The triangles of a finite-element zone: one cell per whole run of node indices.
pub open spec fn fe_indices(et: ElementType, conn: Seq<u32>) -> Seq<u32> {
    fe_triangles(et, conn, conn.len() / shape_nodes(shape_of(et)))
}

proof fn lemma_chunk(k: int, npe: int, len: int)
    requires
        npe > 0,
        len >= 0,
        0 <= k < len / npe,
    ensures
        0 <= k * npe,
        k * npe + npe <= len,
        (k + 1) * npe == k * npe + npe,
{
    assert((k + 1) * npe == k * npe + npe) by (nonlinear_arith);
    assert(k * npe >= 0) by (nonlinear_arith)
        requires
            k >= 0,
            npe > 0,
    ;
    assert((k + 1) * npe <= (len / npe) * npe) by (nonlinear_arith)
        requires
            k + 1 <= len / npe,
            npe > 0,
    ;
    assert((len / npe) * npe <= len) by (nonlinear_arith)
        requires
            npe > 0,
    ;
}

/// The triangles of a finite-element zone of type `et` whose 0-based connectivity is
/// `connectivity`: each whole run of the type's node count is one element.
pub fn triangulate_fe(connectivity: &[u32], et: ElementType) -> (r: Vec<u32>)
    ensures
        r@ == fe_indices(et, connectivity@),
{
    let npe = et.nodes_per();
    let c = shape_of_type(et);
    let len = connectivity.len();
    let count = len / npe;
    let mut out: Vec<u32> = Vec::new();
    let mut k: usize = 0;
    while k < count
        invariant
            npe == shape_nodes(shape_of(et)),
            c == shape_of(et),
            len == connectivity@.len(),
            count == len / npe,
            k <= count,
            out@ == fe_triangles(et, connectivity@, k as nat),
        decreases count - k,
    {
        proof {
            lemma_chunk(k as int, npe as int, len as int);
        }
        let start = k * npe;
        let end = start + npe;
        let mut chunk: Vec<u32> = Vec::new();
        let mut m = start;
        while m < end
            invariant
                start <= m <= end,
                end <= connectivity@.len(),
                chunk@ == connectivity@.subrange(start as int, m as int),
            decreases end - m,
        {
            chunk.push(connectivity[m]);
            assert(connectivity@.subrange(start as int, m + 1) =~= connectivity@.subrange(
                start as int,
                m as int,
            ).push(connectivity@[m as int]));
            m = m + 1;
        }
        push_cell(c, chunk.as_slice(), &mut out);
        proof {
            assert(((k + 1) as nat - 1) * (npe as nat) == start);
        }
        assert(out@ == fe_triangles(et, connectivity@, (k + 1) as nat));
        k = k + 1;
    }
    out
}

/// Cell `(j, i)` of an ordered zone `ni` points wide: the quad of points `j * ni + i`,
/// `j * ni + i + 1`, `(j + 1) * ni + i + 1`, `(j + 1) * ni + i` as two triangles.
pub open spec fn ordered_cell(ni: int) -> spec_fn(int, int) -> Seq<u32> {
    |j: int, i: int|
        {
            let v00 = (j * ni + i) as u32;
            let v10 = (j * ni + (i + 1)) as u32;
            let v01 = ((j + 1) * ni + i) as u32;
            let v11 = ((j + 1) * ni + (i + 1)) as u32;
            seq![v00, v10, v11, v00, v11, v01]
        }
}

/// The triangles of the first I-J plane of an ordered zone; nothing when the plane is
/// thinner than two points either way.
pub open spec fn ordered_indices(ni: int, nj: int) -> Seq<u32> {
    if ni < 2 || nj < 2 {
        Seq::empty()
    } else {
        grid_cells(ordered_cell(ni), (nj - 1) as nat, (ni - 1) as nat)
    }
}

proof fn lemma_ordered_bounds(ni: int, nj: int, i: int, j: int)
    requires
        0 <= i < ni - 1,
        0 <= j < nj - 1,
    ensures
        0 <= j * ni,
        (j + 1) * ni + (i + 1) < ni * nj,
        (j + 1) * ni == j * ni + ni,
{
    assert(0 <= j * ni) by (nonlinear_arith)
        requires
            0 <= j,
            0 < ni,
    ;
    assert((j + 1) * ni == j * ni + ni) by (nonlinear_arith);
    assert((j + 1) * ni + (i + 1) < ni * nj) by (nonlinear_arith)
        requires
            0 <= i < ni - 1,
            0 <= j < nj - 1,
    ;
}

/// The triangles of the first I-J plane of an ordered zone of `i_dim` by `j_dim` points
/// (the K extent is not used): each quad of neighbouring points as two triangles.
pub fn triangulate_structured(i_dim: usize, j_dim: usize, _k_dim: usize) -> (r: Vec<u32>)
    requires
        i_dim * j_dim <= usize::MAX,
    ensures
        r@ == ordered_indices(i_dim as int, j_dim as int),
{
    let mut out: Vec<u32> = Vec::new();
    if i_dim < 2 || j_dim < 2 {
        return out;
    }
    let ghost cell = ordered_cell(i_dim as int);
    let mut j: usize = 0;
    while j < j_dim - 1
        invariant
            2 <= i_dim,
            2 <= j_dim,
            i_dim * j_dim <= usize::MAX,
            j <= j_dim - 1,
            cell == ordered_cell(i_dim as int),
            out@ == grid_cells(cell, j as nat, (i_dim - 1) as nat),
        decreases j_dim - 1 - j,
    {
        let mut i: usize = 0;
        while i < i_dim - 1
            invariant
                2 <= i_dim,
                2 <= j_dim,
                i_dim * j_dim <= usize::MAX,
                j < j_dim - 1,
                i <= i_dim - 1,
                cell == ordered_cell(i_dim as int),
                out@ == grid_cells(cell, j as nat, (i_dim - 1) as nat) + row_cells(cell, j as int, i as nat),
            decreases i_dim - 1 - i,
        {
            proof {
                lemma_ordered_bounds(i_dim as int, j_dim as int, i as int, j as int);
            }
            let v00 = (j * i_dim + i) as u32;
            let v10 = (j * i_dim + (i + 1)) as u32;
            let v01 = ((j + 1) * i_dim + i) as u32;
            let v11 = ((j + 1) * i_dim + (i + 1)) as u32;
            let ghost before = out@;
            out.push(v00);
            out.push(v10);
            out.push(v11);
            out.push(v00);
            out.push(v11);
            out.push(v01);
            proof {
                assert(out@ =~= before + cell(j as int, i as int));
            }
            i = i + 1;
        }
        j = j + 1;
    }
    out
}

/// Every index of an ordered zone's triangles names one of the `ni * nj` points of its first
/// I-J plane, when that count fits the 32-bit indices.
pub proof fn lemma_ordered_indices_in_range(ni: int, nj: int)
    requires
        ni >= 0,
        nj >= 0,
        ni * nj <= u32::MAX + 1,
    ensures
        forall|t: int|
            0 <= t < ordered_indices(ni, nj).len() ==> (#[trigger] ordered_indices(ni, nj)[t] as int) < ni * nj,
{
    if ni >= 2 && nj >= 2 {
        let cell = ordered_cell(ni);
        let bound = ni * nj;
        assert forall|r: int, c: int, t: int|
            0 <= r < nj - 1 && 0 <= c < ni - 1 && 0 <= t < cell(r, c).len() implies #[trigger] cell(r, c)[t]
                < bound by {
            lemma_ordered_bounds(ni, nj, c, r);
        }
        lemma_grid_cells(cell, (nj - 1) as nat, (ni - 1) as nat, 6, bound);
    }
}


/// An optional index as an optional integer.
pub open spec fn opt_int(o: Option<usize>) -> Option<int> {
    match o {
        Some(v) => Some(v as int),
        None => None,
    }
}

/// An upper-cased variable name that names the X coordinate.
pub open spec fn is_x_name(u: Seq<char>) -> bool {
    u == "X"@ || u == "XC"@ || crate::text::has_sub(u, "X-COORD"@) || crate::text::has_sub(u, "X COORD"@)
}

/// An upper-cased variable name that names the Y coordinate.
pub open spec fn is_y_name(u: Seq<char>) -> bool {
    u == "Y"@ || u == "YC"@ || crate::text::has_sub(u, "Y-COORD"@) || crate::text::has_sub(u, "Y COORD"@)
}

/// An upper-cased variable name that names the Z coordinate.
pub open spec fn is_z_name(u: Seq<char>) -> bool {
    u == "Z"@ || u == "ZC"@ || crate::text::has_sub(u, "Z-COORD"@) || crate::text::has_sub(u, "Z COORD"@)
}

/// The coordinate variables found among the first `n` upper-cased names: each name is
/// taken for the first free axis among X, Y, Z that it names, in that order of preference.
pub open spec fn xyz_scan(us: Seq<Seq<char>>, n: nat) -> (Option<int>, Option<int>, Option<int>)
    decreases n,
{
    if n == 0 {
        (None, None, None)
    } else {
        let (x, y, z) = xyz_scan(us, (n - 1) as nat);
        let i = n - 1;
        let u = us[i];
        if x is None && is_x_name(u) {
            (Some(i), y, z)
        } else if y is None && is_y_name(u) {
            (x, Some(i), z)
        } else if z is None && is_z_name(u) {
            (x, y, Some(i))
        } else {
            (x, y, z)
        }
    }
}

/// The X, Y and optional Z variable indices for the upper-cased names `us`: found names
/// first, else X is variable 0, Y variable 1 (0 when there is one variable), and Z variable
/// 2 when there are at least three variables.
pub open spec fn xyz_of(us: Seq<Seq<char>>) -> (int, int, Option<int>) {
    let (x, y, z) = xyz_scan(us, us.len());
    let xi = match x {
        Some(v) => v,
        None => 0,
    };
    let yi = match y {
        Some(v) => v,
        None => if us.len() >= 2 {
            1
        } else {
            0
        },
    };
    let zi = if us.len() >= 3 {
        match z {
            Some(v) => Some(v),
            None => Some(2),
        }
    } else {
        z
    };
    (xi, yi, zi)
}

fn is_axis_name(u: &[char], one: &str, short: &str, dash: &str, spaced: &str) -> (r: bool)
    ensures
        r == (u@ == one@ || u@ == short@ || crate::text::has_sub(u@, dash@) || crate::text::has_sub(u@, spaced@)),
{
    let n = u.len();
    let a = crate::text::range_is(u, 0, n, one);
    let b = crate::text::range_is(u, 0, n, short);
    assert(u@.subrange(0, n as int) =~= u@);
    a || b || crate::text::contains_text(u, dash) || crate::text::contains_text(u, spaced)
}

proof fn lemma_scan_range(us: Seq<Seq<char>>, n: nat)
    ensures
        ({
            let (x, y, z) = xyz_scan(us, n);
            (x matches Some(v) ==> 0 <= v < n) && (y matches Some(v) ==> 0 <= v < n) && (z matches Some(
                v,
            ) ==> 0 <= v < n)
        }),
    decreases n,
{
    if n > 0 {
        lemma_scan_range(us, (n - 1) as nat);
    }
}

/// The characters held by each vector.
pub open spec fn char_views(vs: Seq<Vec<char>>) -> Seq<Seq<char>> {
    vs.map_values(|v: Vec<char>| v@)
}

/// The X, Y and optional Z variable indices given the upper-cased variable names `uppers`
/// (see [`xyz_of`]).
pub fn xyz_from_upper(uppers: &[Vec<char>]) -> (r: (usize, usize, Option<usize>))
    ensures
        ({
            let us = char_views(uppers@);
            let (x, y, z) = xyz_of(us);
            r.0 == x && r.1 == y && opt_int(r.2) == z
        }),
{
    let ghost us = char_views(uppers@);
    let mut xi: Option<usize> = None;
    let mut yi: Option<usize> = None;
    let mut zi: Option<usize> = None;
    let mut i: usize = 0;
    while i < uppers.len()
        invariant
            i <= uppers@.len(),
            us == char_views(uppers@),
            ({
                let (x, y, z) = xyz_scan(us, i as nat);
                (match x {
                    Some(v) => xi == Some(v as usize),
                    None => xi is None,
                }) && (match y {
                    Some(v) => yi == Some(v as usize),
                    None => yi is None,
                }) && (match z {
                    Some(v) => zi == Some(v as usize),
                    None => zi is None,
                })
            }),
        decreases uppers@.len() - i,
    {
        let u = uppers[i].as_slice();
        assert(us[i as int] == u@);
        if xi.is_none() && is_axis_name(u, "X", "XC", "X-COORD", "X COORD") {
            xi = Some(i);
        } else if yi.is_none() && is_axis_name(u, "Y", "YC", "Y-COORD", "Y COORD") {
            yi = Some(i);
        } else if zi.is_none() && is_axis_name(u, "Z", "ZC", "Z-COORD", "Z COORD") {
            zi = Some(i);
        }
        i = i + 1;
    }
    let n = uppers.len();
    proof {
        lemma_scan_range(us, n as nat);
    }
    let x = match xi {
        Some(v) => v,
        None => 0,
    };
    let y = match yi {
        Some(v) => v,
        None => if n >= 2 {
            1
        } else {
            0
        },
    };
    let z = if n >= 3 {
        match zi {
            Some(v) => Some(v),
            None => Some(2),
        }
    } else {
        zi
    };
    (x, y, z)
}

/// The upper-cased names.
pub open spec fn upper_all(vs: Seq<Seq<char>>) -> Seq<Seq<char>> {
    vs.map_values(|v: Seq<char>| upper_text(v))
}

/// The upper-cased names of the variables.
pub open spec fn upper_names(variables: Seq<String>) -> Seq<Seq<char>> {
    variables.map_values(|v: String| upper_text(v@))
}

/// The X, Y and optional Z variable indices among `variables`, names compared upper-cased
/// (see [`xyz_of`]). Never fails.
pub fn find_xyz_indices(variables: &[String]) -> (r: Result<(usize, usize, Option<usize>), IoError>)
    ensures
        r matches Ok(t) && ({
            let (x, y, z) = xyz_of(upper_names(variables@));
            t.0 == x && t.1 == y && opt_int(t.2) == z
        }),
{
    let mut uppers: Vec<Vec<char>> = Vec::new();
    let mut i: usize = 0;
    while i < variables.len()
        invariant
            i <= variables@.len(),
            char_views(uppers@) == upper_names(variables@).subrange(0, i as int),
        decreases variables@.len() - i,
    {
        let u = to_upper(variables[i].as_str());
        let cs = chars_of(u.as_str());
        let ghost before = uppers@;
        uppers.push(cs);
        assert(upper_names(variables@)[i as int] == upper_text(variables@[i as int]@));
        assert(char_views(uppers@) =~= upper_names(variables@).subrange(0, i + 1)) by {
            assert(char_views(uppers@) =~= char_views(before).push(cs@));
        }
        i = i + 1;
    }
    assert(upper_names(variables@).subrange(0, variables@.len() as int) =~= upper_names(variables@));
    Ok(xyz_from_upper(uppers.as_slice()))
}


/// The position of the first occurrence of `p` in `s` at or after `k`.
pub open spec fn first_sub(s: Seq<char>, p: Seq<char>, k: int) -> Option<int>
    decreases s.len() + 1 - k,
{
    if k < 0 || k + p.len() > s.len() {
        None
    } else if s.subrange(k, k + p.len()) == p {
        Some(k)
    } else {
        first_sub(s, p, k + 1)
    }
}

/// `s` without one leading `=`.
pub open spec fn strip_eq(s: Seq<char>) -> Seq<char> {
    if s.len() > 0 && s[0] == '=' {
        s.drop_first()
    } else {
        s
    }
}

/// What follows `key` on a line: the key is found in the upper-cased line, the line is cut
/// at the byte offset just past it, and the rest loses surrounding white space and one
/// leading `=`. A line that does not hold the key is kept whole. `None` when that offset
/// falls inside a character or past the end of the line.
pub open spec fn key_rest(line: Seq<char>, key: Seq<char>) -> Option<Seq<char>> {
    let u = upper_text(line);
    let rest = match first_sub(u, key, 0) {
        Some(k) => match crate::text::char_cut(
            line,
            0,
            crate::text::utf8_len(u.subrange(0, k)) + crate::text::utf8_len(key),
        ) {
            Some(m) => Some(line.subrange(m, line.len() as int)),
            None => None,
        },
        None => Some(line),
    };
    match rest {
        Some(r) => Some(trim(strip_eq(crate::text::trim_start(r)))),
        None => None,
    }
}

fn sub_vec(s: &[char], a: usize, b: usize) -> (r: Vec<char>)
    requires
        a <= b <= s@.len(),
    ensures
        r@ == s@.subrange(a as int, b as int),
{
    let mut r: Vec<char> = Vec::new();
    let mut i = a;
    while i < b
        invariant
            a <= i <= b <= s@.len(),
            r@ == s@.subrange(a as int, i as int),
        decreases b - i,
    {
        r.push(s[i]);
        assert(s@.subrange(a as int, i + 1) =~= s@.subrange(a as int, i as int).push(s@[i as int]));
        i = i + 1;
    }
    r
}

/// The characters of `s` upper-cased by `str::to_uppercase`.
pub fn upper_chars(s: &[char]) -> (r: Vec<char>)
    ensures
        r@ == upper_text(s@),
{
    let t = string_of(s, 0, s.len());
    assert(s@.subrange(0, s@.len() as int) =~= s@);
    let u = to_upper(t.as_str());
    chars_of(u.as_str())
}

/// The value that follows `key` on `line` (see [`key_rest`]); `None` where the cut would split
/// a character.
pub fn strip_key_value(line: &[char], key: &str) -> (r: Option<Vec<char>>)
    ensures
        match key_rest(line@, key@) {
            Some(v) => r matches Some(x) && x@ == v,
            None => r is None,
        },
{
    let u = upper_chars(line);
    let kc = chars_of(key);
    let m = kc.len();
    let ulen = u.len();
    let mut k: usize = 0;
    let mut found: Option<usize> = None;
    while k <= ulen && m <= ulen - k
        invariant_except_break
            found is None,
            first_sub(u@, key@, 0) == first_sub(u@, key@, k as int),
        invariant
            m == key@.len(),
            kc@ == key@,
            u@ == upper_text(line@),
            ulen == u@.len(),
            m == 0 ==> k == 0,
        ensures
            found matches Some(f) ==> first_sub(u@, key@, 0) == Some(f as int) && f + m <= ulen,
            found is None ==> first_sub(u@, key@, 0) is None,
        decreases u@.len() + 1 - k,
    {
        if m == 0 {
            assert(u@.subrange(k as int, k + m) =~= key@);
        }
        if crate::text::range_is(u.as_slice(), k, k + m, key) {
            found = Some(k);
            break;
        }
        k = k + 1;
    }
    let rest: Vec<char> = match found {
        Some(k) => {
            let pre = crate::text::utf8_len_of(u.as_slice(), k);
            let kl = crate::text::utf8_len_of(kc.as_slice(), m);
            assert(kc@.subrange(0, m as int) =~= key@);
            match crate::text::cut_at_byte(line, pre + kl) {
                Some(c) => sub_vec(line, c, line.len()),
                None => {
                    return None;
                },
            }
        },
        None => sub_vec(line, 0, line.len()),
    };
    let (a, _b) = crate::text::trim_bounds(rest.as_slice());
    let start = if a < rest.len() && rest[a] == '=' {
        a + 1
    } else {
        a
    };
    let tail = sub_vec(rest.as_slice(), start, rest.len());
    proof {
        let ts = crate::text::trim_start(rest@);
        assert(strip_eq(ts) =~= tail@);
        assert(line@.subrange(0, line@.len() as int) =~= line@);
    }
    Some(trimmed(tail.as_slice()))
}


/// How a zone lays out its values: node by node, or variable by variable.
#[derive(Clone, Copy, Debug, PartialEq, Eq, Structural)]
pub enum DataFormat {
    /// One line of values per node (`POINT`, `FEPOINT`, the default).
    Point,
    /// All values of one variable, then the next (`BLOCK`).
    Block,
}

/// The fields a zone header sets.
pub struct ZoneHeader {
    /// Node count (`N`/`NODES`); 0 when not given.
    pub num_nodes: usize,
    /// Element count (`E`/`ELEMENTS`); 0 when not given.
    pub num_elements: usize,
    /// Ordered extent along I; 0 when not given.
    pub i_dim: usize,
    /// Ordered extent along J; 0 when not given.
    pub j_dim: usize,
    /// Ordered extent along K; 0 when not given.
    pub k_dim: usize,
    /// Value layout (`F`/`DATAPACKING`).
    pub format: DataFormat,
    /// Finite-element type (`ET`/`ZONETYPE`).
    pub element_type: Option<ElementType>,
    /// The `SOLUTIONTIME` text, when it reads as a number.
    pub solution_time: Option<Vec<char>>,
}

/// The header fields as plain values.
pub struct HeaderSpec {
    pub num_nodes: usize,
    pub num_elements: usize,
    pub i_dim: usize,
    pub j_dim: usize,
    pub k_dim: usize,
    pub format: DataFormat,
    pub element_type: Option<ElementType>,
    pub solution_time: Option<Seq<char>>,
}

/// A header as plain values.
pub open spec fn header_view(h: ZoneHeader) -> HeaderSpec {
    HeaderSpec {
        num_nodes: h.num_nodes,
        num_elements: h.num_elements,
        i_dim: h.i_dim,
        j_dim: h.j_dim,
        k_dim: h.k_dim,
        format: h.format,
        element_type: h.element_type,
        solution_time: match h.solution_time {
            Some(v) => Some(v@),
            None => None,
        },
    }
}

/// The fields of a header that states none.
pub open spec fn empty_header() -> HeaderSpec {
    HeaderSpec {
        num_nodes: 0,
        num_elements: 0,
        i_dim: 0,
        j_dim: 0,
        k_dim: 0,
        format: DataFormat::Point,
        element_type: None,
        solution_time: None,
    }
}

/// The position of the first `c` in `s` at or after `i`, or the end of `s`.
pub open spec fn char_end(s: Seq<char>, c: char, i: int) -> int
    decreases s.len() - i,
{
    if i < 0 || i >= s.len() || s[i] == c {
        i
    } else {
        char_end(s, c, i + 1)
    }
}

/// The pieces of `s[i..]` between commas (`str::split(',')`): `n` commas give `n + 1`
/// pieces, empty ones included.
pub open spec fn comma_parts(s: Seq<char>, i: int) -> Seq<Seq<char>>
    decreases s.len() + 1 - i,
{
    if i < 0 || i > s.len() {
        Seq::empty()
    } else {
        let j = char_end(s, ',', i);
        if i <= j < s.len() {
            seq![s.subrange(i, j)] + comma_parts(s, j + 1)
        } else {
            seq![s.subrange(i, s.len() as int)]
        }
    }
}

/// `s` without leading `"` characters.
pub open spec fn strip_lead_quotes(s: Seq<char>) -> Seq<char>
    decreases s.len(),
{
    if s.len() > 0 && s[0] == '"' {
        strip_lead_quotes(s.drop_first())
    } else {
        s
    }
}

/// `s` without trailing `"` characters.
pub open spec fn strip_trail_quotes(s: Seq<char>) -> Seq<char>
    decreases s.len(),
{
    if s.len() > 0 && s.last() == '"' {
        strip_trail_quotes(s.drop_last())
    } else {
        s
    }
}

/// `s` without leading and trailing `"` characters (`str::trim_matches('"')`).
pub open spec fn trim_quotes(s: Seq<char>) -> Seq<char> {
    strip_trail_quotes(strip_lead_quotes(s))
}

/// An integer field's value: 0 unless the text reads as a `usize`.
pub open spec fn usize_or_zero(v: Seq<char>) -> usize {
    match crate::text::usize_value(v) {
        Some(n) => n,
        None => 0,
    }
}

/// The header after one `KEY=value` piece. Keys are compared upper-cased; values lose
/// surrounding white space and quotes. A piece without `=`, or with an unknown key, changes
/// nothing.
pub open spec fn apply_part(h: HeaderSpec, part: Seq<char>) -> HeaderSpec {
    let p = trim(part);
    let e = char_end(p, '=', 0);
    if p.len() == 0 || e >= p.len() {
        h
    } else {
        let key = upper_text(trim(p.subrange(0, e)));
        let value = trim_quotes(trim(p.subrange(e + 1, p.len() as int)));
        if key == "I"@ {
            HeaderSpec { i_dim: usize_or_zero(value), ..h }
        } else if key == "J"@ {
            HeaderSpec { j_dim: usize_or_zero(value), ..h }
        } else if key == "K"@ {
            HeaderSpec { k_dim: usize_or_zero(value), ..h }
        } else if key == "N"@ || key == "NODES"@ {
            HeaderSpec { num_nodes: usize_or_zero(value), ..h }
        } else if key == "E"@ || key == "ELEMENTS"@ {
            HeaderSpec { num_elements: usize_or_zero(value), ..h }
        } else if key == "F"@ || key == "DATAPACKING"@ {
            HeaderSpec {
                format: if upper_text(value) == "BLOCK"@ {
                    DataFormat::Block
                } else {
                    DataFormat::Point
                },
                ..h
            }
        } else if key == "ET"@ || key == "ZONETYPE"@ {
            HeaderSpec { element_type: element_type_of(upper_text(value)), ..h }
        } else if key == "SOLUTIONTIME"@ {
            HeaderSpec {
                solution_time: if crate::text::is_float_text(value) {
                    Some(value)
                } else {
                    None
                },
                ..h
            }
        } else {
            h
        }
    }
}

/// The header after the first `n` pieces.
pub open spec fn apply_parts(parts: Seq<Seq<char>>, n: nat) -> HeaderSpec
    decreases n,
{
    if n == 0 {
        empty_header()
    } else {
        apply_part(apply_parts(parts, (n - 1) as nat), parts[n - 1])
    }
}

/// The fields a zone header text sets.
pub open spec fn header_of(header: Seq<char>) -> HeaderSpec {
    let parts = comma_parts(header, 0);
    apply_parts(parts, parts.len())
}

proof fn lemma_char_end(s: Seq<char>, c: char, i: int)
    requires
        0 <= i <= s.len(),
    ensures
        i <= char_end(s, c, i) <= s.len(),
        char_end(s, c, i) < s.len() ==> s[char_end(s, c, i)] == c,
    decreases s.len() - i,
{
    if i < s.len() && s[i] != c {
        lemma_char_end(s, c, i + 1);
    }
}

fn find_char(s: &[char], c: char, i: usize) -> (r: usize)
    requires
        i <= s@.len(),
    ensures
        r == char_end(s@, c, i as int),
        i <= r <= s@.len(),
{
    proof {
        lemma_char_end(s@, c, i as int);
    }
    let mut j = i;
    while j < s.len() && s[j] != c
        invariant
            i <= j <= s@.len(),
            char_end(s@, c, i as int) == char_end(s@, c, j as int),
        decreases s@.len() - j,
    {
        j = j + 1;
    }
    j
}

fn trim_quote_bounds(s: &[char]) -> (r: (usize, usize))
    ensures
        r.0 <= r.1 <= s@.len(),
        s@.subrange(r.0 as int, r.1 as int) == trim_quotes(s@),
{
    let mut a: usize = 0;
    assert(s@.subrange(0, s@.len() as int) =~= s@);
    while a < s.len() && s[a] == '"'
        invariant
            a <= s@.len(),
            strip_lead_quotes(s@) == strip_lead_quotes(s@.subrange(a as int, s@.len() as int)),
        decreases s@.len() - a,
    {
        assert(s@.subrange(a as int, s@.len() as int).drop_first() =~= s@.subrange(a + 1, s@.len() as int));
        a = a + 1;
    }
    assert(strip_lead_quotes(s@) == s@.subrange(a as int, s@.len() as int));
    let ghost t = s@.subrange(a as int, s@.len() as int);
    let mut b: usize = s.len();
    while b > a && s[b - 1] == '"'
        invariant
            a <= b <= s@.len(),
            t == s@.subrange(a as int, s@.len() as int),
            strip_trail_quotes(t) == strip_trail_quotes(s@.subrange(a as int, b as int)),
        decreases b - a,
    {
        assert(s@.subrange(a as int, b as int).drop_last() =~= s@.subrange(a as int, b - 1));
        b = b - 1;
    }
    (a, b)
}

fn sub_string(s: &[char], a: usize, b: usize) -> (r: Vec<char>)
    requires
        a <= b <= s@.len(),
    ensures
        r@ == s@.subrange(a as int, b as int),
{
    sub_vec(s, a, b)
}

fn is_text(s: &[char], kw: &str) -> (r: bool)
    ensures
        r == (s@ == kw@),
{
    let n = s.len();
    assert(s@.subrange(0, n as int) =~= s@);
    crate::text::range_is(s, 0, n, kw)
}

fn apply_header_part(h: &mut ZoneHeader, part: &[char])
    ensures
        header_view(*final(h)) == apply_part(header_view(*old(h)), part@),
{
    let p = trimmed(part);
    let e = find_char(p.as_slice(), '=', 0);
    if p.len() == 0 || e >= p.len() {
        return ;
    }
    let key_raw = sub_string(p.as_slice(), 0, e);
    let key_t = trimmed(key_raw.as_slice());
    let key = upper_chars(key_t.as_slice());
    let val_raw = sub_string(p.as_slice(), e + 1, p.len());
    let val_t = trimmed(val_raw.as_slice());
    let (qa, qb) = trim_quote_bounds(val_t.as_slice());
    let value = sub_string(val_t.as_slice(), qa, qb);
    let k = key.as_slice();
    let v = value.as_slice();
    if is_text(k, "I") {
        h.i_dim = match crate::text::parse_usize(v, 0, v.len()) {
            Some(n) => n,
            None => 0,
        };
    } else if is_text(k, "J") {
        h.j_dim = match crate::text::parse_usize(v, 0, v.len()) {
            Some(n) => n,
            None => 0,
        };
    } else if is_text(k, "K") {
        h.k_dim = match crate::text::parse_usize(v, 0, v.len()) {
            Some(n) => n,
            None => 0,
        };
    } else if is_text(k, "N") || is_text(k, "NODES") {
        h.num_nodes = match crate::text::parse_usize(v, 0, v.len()) {
            Some(n) => n,
            None => 0,
        };
    } else if is_text(k, "E") || is_text(k, "ELEMENTS") {
        h.num_elements = match crate::text::parse_usize(v, 0, v.len()) {
            Some(n) => n,
            None => 0,
        };
    } else if is_text(k, "F") || is_text(k, "DATAPACKING") {
        let u = upper_chars(v);
        h.format = if is_text(u.as_slice(), "BLOCK") {
            DataFormat::Block
        } else {
            DataFormat::Point
        };
    } else if is_text(k, "ET") || is_text(k, "ZONETYPE") {
        let u = upper_chars(v);
        let us = string_of(u.as_slice(), 0, u.len());
        assert(u@.subrange(0, u@.len() as int) =~= u@);
        h.element_type = element_type_from_upper(us.as_str());
    } else if is_text(k, "SOLUTIONTIME") {
        h.solution_time = if crate::text::is_float_range(v, 0, v.len()) {
            Some(sub_string(v, 0, v.len()))
        } else {
            None
        };
    }
    proof {
        assert(v@.subrange(0, v@.len() as int) =~= v@);
    }
}

/// Whether a zone header piece holds a `=` after its trimmed start.
pub open spec fn part_has_value(part: Seq<char>) -> bool {
    char_end(trim(part), '=', 0) < trim(part).len()
}

/// A header piece's key: the text before its first `=`, trimmed and upper-cased.
pub open spec fn part_key(part: Seq<char>) -> Seq<char> {
    let p = trim(part);
    upper_text(trim(p.subrange(0, char_end(p, '=', 0))))
}

/// A header piece's value: the text after its first `=`, trimmed and without its quotes.
pub open spec fn part_value(part: Seq<char>) -> Seq<char> {
    let p = trim(part);
    trim_quotes(trim(p.subrange(char_end(p, '=', 0) + 1, p.len() as int)))
}

/// `DATAPACKING` (the Tecplot 360 spelling) and `F` are the same key: two pieces with these
/// keys and the same value set the header alike, and only its value layout, to `BLOCK` when
/// the value is `BLOCK` in any case and to `POINT` otherwise.
pub proof fn lemma_datapacking_is_f(h: HeaderSpec, f_part: Seq<char>, dp_part: Seq<char>)
    requires
        part_has_value(f_part),
        part_has_value(dp_part),
        part_key(f_part) == "F"@,
        part_key(dp_part) == "DATAPACKING"@,
        part_value(f_part) == part_value(dp_part),
    ensures
        apply_part(h, f_part) == apply_part(h, dp_part),
        apply_part(h, dp_part) == (HeaderSpec {
            format: if upper_text(part_value(dp_part)) == "BLOCK"@ {
                DataFormat::Block
            } else {
                DataFormat::Point
            },
            ..h
        }),
{
    reveal_strlit("F");
    reveal_strlit("DATAPACKING");
    reveal_strlit("I");
    reveal_strlit("J");
    reveal_strlit("K");
    reveal_strlit("N");
    reveal_strlit("NODES");
    reveal_strlit("E");
    reveal_strlit("ELEMENTS");
    assert("F"@[0] != "I"@[0] && "F"@[0] != "J"@[0] && "F"@[0] != "K"@[0] && "F"@[0] != "N"@[0] && "F"@[0]
        != "E"@[0]);
    assert("F"@ != "I"@ && "F"@ != "J"@ && "F"@ != "K"@ && "F"@ != "N"@ && "F"@ != "E"@);
    assert("F"@ != "NODES"@ && "F"@ != "ELEMENTS"@);
    assert("DATAPACKING"@ != "I"@ && "DATAPACKING"@ != "J"@ && "DATAPACKING"@ != "K"@ && "DATAPACKING"@ != "N"@);
    assert("DATAPACKING"@.len() == 11 && "ELEMENTS"@.len() == 8 && "NODES"@.len() == 5 && "E"@.len() == 1);
    assert("DATAPACKING"@ != "NODES"@ && "DATAPACKING"@ != "E"@ && "DATAPACKING"@ != "ELEMENTS"@);
}

/// The long key names are synonyms of the short ones: a piece keyed `NODES`, `ELEMENTS`,
/// `ZONETYPE` or `DATAPACKING` sets the header as the piece with the same value keyed `N`,
/// `E`, `ET` or `F` does.
pub proof fn lemma_header_key_synonyms(h: HeaderSpec, short: Seq<char>, long: Seq<char>)
    requires
        part_has_value(short),
        part_has_value(long),
        part_value(short) == part_value(long),
        (part_key(short), part_key(long)) == ("N"@, "NODES"@) || (part_key(short), part_key(long)) == (
            "E"@,
            "ELEMENTS"@,
        ) || (part_key(short), part_key(long)) == ("ET"@, "ZONETYPE"@) || (part_key(short), part_key(long)) == (
            "F"@,
            "DATAPACKING"@,
        ),
    ensures
        apply_part(h, short) == apply_part(h, long),
{
    reveal_strlit("F");
    reveal_strlit("DATAPACKING");
    reveal_strlit("I");
    reveal_strlit("J");
    reveal_strlit("K");
    reveal_strlit("N");
    reveal_strlit("NODES");
    reveal_strlit("E");
    reveal_strlit("ELEMENTS");
    reveal_strlit("ET");
    reveal_strlit("ZONETYPE");
    let keys = seq!["I"@, "J"@, "K"@, "N"@, "NODES"@, "E"@, "ELEMENTS"@, "F"@, "DATAPACKING"@, "ET"@, "ZONETYPE"@];
    assert forall|a: int, b: int| 0 <= a < b < keys.len() implies keys[a] != keys[b] by {
        if keys[a].len() == keys[b].len() {
            assert(keys[a][0] != keys[b][0] || keys[a][1] != keys[b][1]);
        }
    }
    assert(keys[0] == "I"@ && keys[1] == "J"@ && keys[2] == "K"@ && keys[3] == "N"@ && keys[4] == "NODES"@);
    assert(keys[5] == "E"@ && keys[6] == "ELEMENTS"@ && keys[7] == "F"@ && keys[8] == "DATAPACKING"@);
    assert(keys[9] == "ET"@ && keys[10] == "ZONETYPE"@);
}

/// The fields a zone header sets (see [`header_of`]): the header is split at commas and
/// each `KEY=value` piece applied in turn.
pub fn parse_zone_header(header: &[char]) -> (r: ZoneHeader)
    ensures
        header_view(r) == header_of(header@),
{
    let mut h = ZoneHeader {
        num_nodes: 0,
        num_elements: 0,
        i_dim: 0,
        j_dim: 0,
        k_dim: 0,
        format: DataFormat::Point,
        element_type: None,
        solution_time: None,
    };
    let ghost parts = comma_parts(header@, 0);
    let ghost mut done: Seq<Seq<char>> = Seq::empty();
    let mut i: usize = 0;
    let n = header.len();
    loop
        invariant
            n == header@.len(),
            i <= n,
            parts == comma_parts(header@, 0),
            parts == done + comma_parts(header@, i as int),
            header_view(h) == apply_parts(parts, done.len()),
        decreases n + 1 - i,
    {
        let j = find_char(header, ',', i);
        let piece = sub_string(header, i, j);
        let ghost prev = h;
        apply_header_part(&mut h, piece.as_slice());
        proof {
            let rest = comma_parts(header@, i as int);
            assert(rest[0] == piece@);
            assert(parts[done.len() as int] == piece@);
            assert(apply_parts(parts, done.len() + 1) == apply_part(apply_parts(parts, done.len()), piece@));
            done = done.push(piece@);
            assert(header_view(h) == apply_parts(parts, done.len()));
        }
        if j < n {
            proof {
                assert(comma_parts(header@, i as int) =~= seq![piece@] + comma_parts(header@, j + 1));
            }
            i = j + 1;
        } else {
            proof {
                assert(comma_parts(header@, i as int) =~= seq![piece@]);
                assert(parts =~= done);
            }
            return h;
        }
    }
}


/// The words among the first `n` of `ws` that read as numbers.
pub open spec fn number_words(ws: Seq<Seq<char>>, n: nat) -> Seq<Seq<char>>
    decreases n,
{
    if n == 0 {
        Seq::empty()
    } else {
        number_words(ws, (n - 1) as nat) + if crate::text::is_float_text(ws[n - 1]) {
            seq![ws[n - 1]]
        } else {
            Seq::empty()
        }
    }
}

/// The number texts of a data line: its white-space separated words that read as numbers.
pub open spec fn numbers_of(t: Seq<char>) -> Seq<Seq<char>> {
    let ws = crate::text::words(t);
    number_words(ws, ws.len())
}

/// A 1-based node number as a 0-based index, 0 staying 0.
pub open spec fn zero_based(id: u32) -> u32 {
    if id == 0 {
        0
    } else {
        (id - 1) as u32
    }
}

/// The 0-based node indices among the first `n` of `ws`: the words that read as `u32`.
pub open spec fn id_words(ws: Seq<Seq<char>>, n: nat) -> Seq<u32>
    decreases n,
{
    if n == 0 {
        Seq::empty()
    } else {
        id_words(ws, (n - 1) as nat) + match crate::text::u32_value(ws[n - 1]) {
            Some(v) => seq![zero_based(v)],
            None => Seq::empty(),
        }
    }
}

/// The node indices of a connectivity line.
pub open spec fn ids_of(t: Seq<char>) -> Seq<u32> {
    let ws = crate::text::words(t);
    id_words(ws, ws.len())
}

/// The texts of a vector of vectors of characters.
pub open spec fn texts(v: Seq<Vec<char>>) -> Seq<Seq<char>> {
    v.map_values(|x: Vec<char>| x@)
}

/// The number texts of the characters `t` (see [`numbers_of`]).
pub fn number_tokens(t: &[char]) -> (r: Vec<Vec<char>>)
    ensures
        texts(r@) == numbers_of(t@),
{
    let ranges = crate::text::word_ranges(t);
    let ghost ws = crate::text::words(t@);
    let mut r: Vec<Vec<char>> = Vec::new();
    let mut k: usize = 0;
    while k < ranges.len()
        invariant
            k <= ranges@.len(),
            ws == crate::text::words(t@),
            crate::text::ranges_match(t@, ranges@, ws),
            texts(r@) == number_words(ws, k as nat),
        decreases ranges@.len() - k,
    {
        let (a, b) = ranges[k];
        let ghost before = r@;
        if crate::text::is_float_range(t, a, b) {
            r.push(sub_vec(t, a, b));
            assert(texts(r@) =~= texts(before).push(ws[k as int]));
        } else {
            assert(number_words(ws, (k + 1) as nat) =~= number_words(ws, k as nat));
        }
        k = k + 1;
    }
    r
}

/// The 0-based node indices of the characters `t` (see [`ids_of`]).
pub fn id_tokens(t: &[char]) -> (r: Vec<u32>)
    ensures
        r@ == ids_of(t@),
{
    let ranges = crate::text::word_ranges(t);
    let ghost ws = crate::text::words(t@);
    let mut r: Vec<u32> = Vec::new();
    let mut k: usize = 0;
    while k < ranges.len()
        invariant
            k <= ranges@.len(),
            ws == crate::text::words(t@),
            crate::text::ranges_match(t@, ranges@, ws),
            r@ == id_words(ws, k as nat),
        decreases ranges@.len() - k,
    {
        let (a, b) = ranges[k];
        match crate::text::parse_u32(t, a, b) {
            Some(v) => {
                r.push(if v == 0 { 0 } else { v - 1 });
            },
            None => {
                assert(id_words(ws, (k + 1) as nat) =~= id_words(ws, k as nat));
            },
        }
        k = k + 1;
    }
    r
}

/// Whether an upper-cased line opens a new section: `ZONE`, `TITLE` or `VARIABLES`.
pub open spec fn opens_section(u: Seq<char>) -> bool {
    starts(u, "ZONE"@) || starts(u, "TITLE"@) || starts(u, "VARIABLES"@)
}

/// Point data read from line `p` on: each line holding numbers is one node row, until `nn`
/// rows are read, a section line (`ZONE`, `TITLE`, `VARIABLES`, `TEXT`) is met, or the lines
/// end. Blank lines are passed over. Gives the rows and the next line.
pub open spec fn point_rows(ts: Seq<Seq<char>>, p: int, nn: nat, rows: Seq<Seq<Seq<char>>>) -> (Seq<Seq<Seq<char>>>, int)
    decreases ts.len() - p,
{
    if rows.len() >= nn || p < 0 || p >= ts.len() {
        (rows, p)
    } else if ts[p].len() == 0 {
        point_rows(ts, p + 1, nn, rows)
    } else if opens_section(upper_text(ts[p])) || starts(upper_text(ts[p]), "TEXT"@) {
        (rows, p)
    } else {
        let vals = numbers_of(ts[p]);
        if vals.len() > 0 {
            point_rows(ts, p + 1, nn, rows.push(vals))
        } else {
            point_rows(ts, p + 1, nn, rows)
        }
    }
}

/// Column `k` of the first `n` rows: the `k`-th value of each row that has one.
pub open spec fn column(rows: Seq<Seq<Seq<char>>>, k: int, n: nat) -> Seq<Seq<char>>
    decreases n,
{
    if n == 0 {
        Seq::empty()
    } else {
        column(rows, k, (n - 1) as nat) + if k < rows[n - 1].len() {
            seq![rows[n - 1][k]]
        } else {
            Seq::empty()
        }
    }
}

/// The `nv` per-variable columns of node rows: value `k` of a row belongs to variable `k`,
/// values past the last variable are dropped.
pub open spec fn columns(rows: Seq<Seq<Seq<char>>>, nv: nat) -> Seq<Seq<Seq<char>>> {
    Seq::new(nv, |k: int| column(rows, k, rows.len()))
}

/// The values of one variable in block layout, read from line `p` on: whole lines of numbers
/// until at least `nn` are read, a `ZONE`, `TITLE` or `VARIABLES` line is met, or the lines end.
pub open spec fn block_var(ts: Seq<Seq<char>>, p: int, nn: nat, vals: Seq<Seq<char>>) -> (Seq<Seq<char>>, int)
    decreases ts.len() - p,
{
    if vals.len() >= nn || p < 0 || p >= ts.len() {
        (vals, p)
    } else if ts[p].len() == 0 {
        block_var(ts, p + 1, nn, vals)
    } else if opens_section(upper_text(ts[p])) {
        (vals, p)
    } else {
        block_var(ts, p + 1, nn, vals + numbers_of(ts[p]))
    }
}

/// Block data: `nv` variables read one after the other from line `p` on.
pub open spec fn block_data(ts: Seq<Seq<char>>, p: int, nn: nat, nv: nat) -> (Seq<Seq<Seq<char>>>, int)
    decreases nv,
{
    if nv == 0 {
        (Seq::empty(), p)
    } else {
        let (d, q) = block_data(ts, p, nn, (nv - 1) as nat);
        let (vals, r) = block_var(ts, q, nn, Seq::empty());
        (d.push(vals), r)
    }
}

/// Connectivity read from line `p` on: each line with at least `npe` node numbers is one
/// element (its first `npe` numbers, made 0-based), until `ne` elements are read, a `ZONE`,
/// `TITLE` or `VARIABLES` line is met, or the lines end.
pub open spec fn connectivity(ts: Seq<Seq<char>>, p: int, npe: nat, ne: nat, conn: Seq<u32>, read: nat) -> (Seq<u32>, int)
    decreases ts.len() - p,
{
    if read >= ne || p < 0 || p >= ts.len() {
        (conn, p)
    } else if ts[p].len() == 0 {
        connectivity(ts, p + 1, npe, ne, conn, read)
    } else if opens_section(upper_text(ts[p])) {
        (conn, p)
    } else {
        let ids = ids_of(ts[p]);
        if ids.len() >= npe {
            connectivity(ts, p + 1, npe, ne, conn + ids.subrange(0, npe as int), read + 1)
        } else {
            connectivity(ts, p + 1, npe, ne, conn, read)
        }
    }
}

/// The per-line facts the readers rely on: `us[k]` is the upper-cased `ts[k]`.
pub open spec fn lines_ok(ts: Seq<Vec<char>>, us: Seq<Vec<char>>) -> bool {
    &&& ts.len() == us.len()
    &&& forall|k: int| 0 <= k < ts.len() ==> (#[trigger] us[k])@ == upper_text(ts[k]@)
}

fn opens_section_line(u: &[char]) -> (r: bool)
    ensures
        r == opens_section(u@),
{
    starts_with(u, "ZONE") || starts_with(u, "TITLE") || starts_with(u, "VARIABLES")
}

/// The texts of a table of texts.
pub open spec fn tables(v: Seq<Vec<Vec<char>>>) -> Seq<Seq<Seq<char>>> {
    v.map_values(|x: Vec<Vec<char>>| texts(x@))
}

/// Reads point rows (see [`point_rows`]) from line `p`; returns the rows and the next line.
fn read_point_rows(ts: &Vec<Vec<char>>, us: &Vec<Vec<char>>, p: usize, nn: usize) -> (r: (Vec<Vec<Vec<char>>>, usize))
    requires
        lines_ok(ts@, us@),
        p <= ts@.len(),
    ensures
        (tables(r.0@), r.1 as int) == point_rows(texts(ts@), p as int, nn as nat, Seq::empty()),
        p <= r.1 <= ts@.len(),
{
    let ghost tv = texts(ts@);
    let mut rows: Vec<Vec<Vec<char>>> = Vec::new();
    assert(tables(rows@) =~= Seq::<Seq<Seq<char>>>::empty());
    let mut i = p;
    while i < ts.len() && rows.len() < nn
        invariant
            lines_ok(ts@, us@),
            tv == texts(ts@),
            p <= i <= ts@.len(),
            point_rows(tv, p as int, nn as nat, Seq::empty()) == point_rows(tv, i as int, nn as nat, tables(rows@)),
        decreases ts@.len() - i,
    {
        let t = ts[i].as_slice();
        assert(tv[i as int] == t@);
        if t.len() == 0 {
            i = i + 1;
        } else {
            let u = us[i].as_slice();
            if opens_section_line(u) || starts_with(u, "TEXT") {
                return (rows, i);
            }
            let vals = number_tokens(t);
            if vals.len() > 0 {
                let ghost before = rows@;
                rows.push(vals);
                assert(tables(rows@) =~= tables(before).push(texts(vals@)));
            }
            i = i + 1;
        }
    }
    (rows, i)
}

/// A fresh copy of a text.
fn copy_text(t: &Vec<char>) -> (r: Vec<char>)
    ensures
        r@ == t@,
{
    let r = sub_vec(t.as_slice(), 0, t.len());
    assert(t@.subrange(0, t@.len() as int) =~= t@);
    r
}

/// The per-variable columns of node rows (see [`columns`]).
pub fn rows_to_columns(rows: &Vec<Vec<Vec<char>>>, nv: usize) -> (r: Vec<Vec<Vec<char>>>)
    ensures
        tables(r@) == columns(tables(rows@), nv as nat),
{
    let ghost rv = tables(rows@);
    let mut out: Vec<Vec<Vec<char>>> = Vec::new();
    let mut k: usize = 0;
    while k < nv
        invariant
            k <= nv,
            rv == tables(rows@),
            tables(out@) == columns(rv, nv as nat).subrange(0, k as int),
        decreases nv - k,
    {
        let mut col: Vec<Vec<char>> = Vec::new();
        let mut n: usize = 0;
        while n < rows.len()
            invariant
                n <= rows@.len(),
                rv == tables(rows@),
                texts(col@) == column(rv, k as int, n as nat),
            decreases rows@.len() - n,
        {
            let row = &rows[n];
            assert(rv[n as int] == texts(row@));
            let ghost before = col@;
            if k < row.len() {
                col.push(copy_text(&row[k]));
                assert(texts(col@) =~= texts(before).push(rv[n as int][k as int]));
            } else {
                assert(column(rv, k as int, (n + 1) as nat) =~= column(rv, k as int, n as nat));
            }
            n = n + 1;
        }
        let ghost before = out@;
        out.push(col);
        assert(tables(out@) =~= columns(rv, nv as nat).subrange(0, k + 1)) by {
            assert(tables(out@) =~= tables(before).push(texts(col@)));
        }
        k = k + 1;
    }
    assert(columns(rv, nv as nat).subrange(0, nv as int) =~= columns(rv, nv as nat));
    out
}


/// Reads the values of one block-layout variable (see [`block_var`]) from line `p`.
fn read_block_var(ts: &Vec<Vec<char>>, us: &Vec<Vec<char>>, p: usize, nn: usize) -> (r: (Vec<Vec<char>>, usize))
    requires
        lines_ok(ts@, us@),
        p <= ts@.len(),
    ensures
        (texts(r.0@), r.1 as int) == block_var(texts(ts@), p as int, nn as nat, Seq::empty()),
        p <= r.1 <= ts@.len(),
{
    let ghost tv = texts(ts@);
    let mut vals: Vec<Vec<char>> = Vec::new();
    assert(texts(vals@) =~= Seq::<Seq<char>>::empty());
    let mut i = p;
    while i < ts.len() && vals.len() < nn
        invariant
            lines_ok(ts@, us@),
            tv == texts(ts@),
            p <= i <= ts@.len(),
            block_var(tv, p as int, nn as nat, Seq::empty()) == block_var(tv, i as int, nn as nat, texts(vals@)),
        decreases ts@.len() - i,
    {
        let t = ts[i].as_slice();
        assert(tv[i as int] == t@);
        if t.len() == 0 {
            i = i + 1;
        } else {
            let u = us[i].as_slice();
            if opens_section_line(u) {
                return (vals, i);
            }
            let mut more = number_tokens(t);
            let ghost before = vals@;
            let ghost extra = more@;
            vals.append(&mut more);
            assert(texts(vals@) =~= texts(before) + texts(extra));
            i = i + 1;
        }
    }
    (vals, i)
}

/// Reads block data (see [`block_data`]): `nv` variables from line `p`.
fn read_block_data(ts: &Vec<Vec<char>>, us: &Vec<Vec<char>>, p: usize, nn: usize, nv: usize) -> (r: (Vec<Vec<Vec<char>>>, usize))
    requires
        lines_ok(ts@, us@),
        p <= ts@.len(),
    ensures
        (tables(r.0@), r.1 as int) == block_data(texts(ts@), p as int, nn as nat, nv as nat),
        p <= r.1 <= ts@.len(),
{
    let ghost tv = texts(ts@);
    let mut data: Vec<Vec<Vec<char>>> = Vec::new();
    let mut q = p;
    let mut k: usize = 0;
    assert(tables(data@) =~= Seq::<Seq<Seq<char>>>::empty());
    while k < nv
        invariant
            lines_ok(ts@, us@),
            tv == texts(ts@),
            k <= nv,
            p <= q <= ts@.len(),
            (tables(data@), q as int) == block_data(tv, p as int, nn as nat, k as nat),
        decreases nv - k,
    {
        let (vals, next) = read_block_var(ts, us, q, nn);
        let ghost before = data@;
        data.push(vals);
        assert(tables(data@) =~= tables(before).push(texts(vals@)));
        q = next;
        k = k + 1;
    }
    (data, q)
}

/// Reads connectivity (see [`connectivity`]) from line `p`.
fn read_connectivity(ts: &Vec<Vec<char>>, us: &Vec<Vec<char>>, p: usize, npe: usize, ne: usize) -> (r: (Vec<u32>, usize))
    requires
        lines_ok(ts@, us@),
        p <= ts@.len(),
    ensures
        (r.0@, r.1 as int) == connectivity(texts(ts@), p as int, npe as nat, ne as nat, Seq::empty(), 0),
        p <= r.1 <= ts@.len(),
{
    let ghost tv = texts(ts@);
    let mut conn: Vec<u32> = Vec::new();
    let mut read: usize = 0;
    let mut i = p;
    while i < ts.len() && read < ne
        invariant
            lines_ok(ts@, us@),
            tv == texts(ts@),
            p <= i <= ts@.len(),
            read <= ne,
            connectivity(tv, p as int, npe as nat, ne as nat, Seq::empty(), 0) == connectivity(
                tv,
                i as int,
                npe as nat,
                ne as nat,
                conn@,
                read as nat,
            ),
        decreases ts@.len() - i,
    {
        let t = ts[i].as_slice();
        assert(tv[i as int] == t@);
        if t.len() == 0 {
            i = i + 1;
        } else {
            let u = us[i].as_slice();
            if opens_section_line(u) {
                return (conn, i);
            }
            let ids = id_tokens(t);
            if ids.len() >= npe {
                let ghost before = conn@;
                let mut m: usize = 0;
                while m < npe
                    invariant
                        m <= npe <= ids@.len(),
                        conn@ == before + ids@.subrange(0, m as int),
                    decreases npe - m,
                {
                    conn.push(ids[m]);
                    assert(ids@.subrange(0, m + 1) =~= ids@.subrange(0, m as int).push(ids@[m as int]));
                    m = m + 1;
                }
                read = read + 1;
            }
            i = i + 1;
        }
    }
    (conn, i)
}

/// Whether `c` is an ASCII letter.
pub open spec fn is_ascii_letter(c: char) -> bool {
    ('A' <= c <= 'Z') || ('a' <= c <= 'z')
}

/// Whether an upper-cased line opens a section that ends a zone header.
pub open spec fn ends_header(u: Seq<char>) -> bool {
    opens_section(u) || starts(u, "TEXT"@) || starts(u, "GEOMETRY"@)
}

/// The zone header continued from line `p`: blank lines are passed over, and each line that
/// starts with a letter or a comma and opens no section is appended after `", "`. Gives the
/// header and the first line after it.
pub open spec fn header_lines(ts: Seq<Seq<char>>, p: int, acc: Seq<char>) -> (Seq<char>, int)
    decreases ts.len() - p,
{
    if p < 0 || p >= ts.len() {
        (acc, p)
    } else if ts[p].len() == 0 {
        header_lines(ts, p + 1, acc)
    } else if (is_ascii_letter(ts[p][0]) || ts[p][0] == ',') && !ends_header(upper_text(ts[p])) {
        header_lines(ts, p + 1, acc + ", "@ + ts[p])
    } else {
        (acc, p)
    }
}

fn read_header_lines(ts: &Vec<Vec<char>>, us: &Vec<Vec<char>>, p: usize, first: Vec<char>) -> (r: (Vec<char>, usize))
    requires
        lines_ok(ts@, us@),
        p <= ts@.len(),
    ensures
        (r.0@, r.1 as int) == header_lines(texts(ts@), p as int, first@),
        p <= r.1 <= ts@.len(),
{
    let ghost tv = texts(ts@);
    let mut acc = first;
    let mut i = p;
    while i < ts.len()
        invariant
            lines_ok(ts@, us@),
            tv == texts(ts@),
            p <= i <= ts@.len(),
            header_lines(tv, p as int, first@) == header_lines(tv, i as int, acc@),
        decreases ts@.len() - i,
    {
        let t = ts[i].as_slice();
        assert(tv[i as int] == t@);
        if t.len() == 0 {
            i = i + 1;
        } else {
            let c = t[0];
            let u = us[i].as_slice();
            if (('A' <= c && c <= 'Z') || ('a' <= c && c <= 'z') || c == ',') && !(opens_section_line(u)
                || starts_with(u, "TEXT") || starts_with(u, "GEOMETRY")) {
                let ghost before = acc@;
                acc.push(',');
                acc.push(' ');
                proof {
                    reveal_strlit(", ");
                    assert(acc@ =~= before + ", "@ + t@.subrange(0, 0));
                }
                let mut m: usize = 0;
                while m < t.len()
                    invariant
                        m <= t@.len(),
                        acc@ == before + ", "@ + t@.subrange(0, m as int),
                    decreases t@.len() - m,
                {
                    acc.push(t[m]);
                    assert(t@.subrange(0, m + 1) =~= t@.subrange(0, m as int).push(t@[m as int]));
                    m = m + 1;
                }
                proof {
                    reveal_strlit(", ");
                    assert(acc@ =~= before + ", "@ + t@);
                }
                i = i + 1;
            } else {
                return (acc, i);
            }
        }
    }
    (acc, i)
}


/// A zone as plain values: its header fields (with the node count settled), its values per
/// variable, and its 0-based connectivity.
pub struct ZoneSpec {
    pub header: HeaderSpec,
    pub data: Seq<Seq<Seq<char>>>,
    pub conn: Seq<u32>,
}

/// The node count of a zone: as stated, or for an ordered zone without one, the product of
/// its extents (a missing extent counting as 1). `None` when that product overflows.
pub open spec fn node_count(h: HeaderSpec) -> Option<usize> {
    if h.element_type is None && h.num_nodes == 0 {
        let n = crate::cgns::grid_nodes(h.i_dim as int, h.j_dim as int, h.k_dim as int);
        if n <= usize::MAX {
            Some(n as usize)
        } else {
            None
        }
    } else {
        Some(h.num_nodes)
    }
}

/// The zone that starts on line `i` of a file with `nv` variables, and the line after it.
/// The header runs on over continuation lines; then, when the zone has nodes and the file
/// has variables, come its values (point or block layout) and, for a finite-element zone,
/// its connectivity. `None` where the `ZONE` keyword cannot be cut off the line or the node
/// count overflows.
pub open spec fn zone_at(ts: Seq<Seq<char>>, i: int, nv: nat) -> Option<(ZoneSpec, int)> {
    match key_rest(ts[i], "ZONE"@) {
        None => None,
        Some(h0) => {
            let (htext, p) = header_lines(ts, i + 1, h0);
            let h = header_of(htext);
            match node_count(h) {
                None => None,
                Some(nn) => {
                    let h2 = HeaderSpec { num_nodes: nn, ..h };
                    if nn == 0 || nv == 0 {
                        Some((ZoneSpec { header: h2, data: Seq::empty(), conn: Seq::empty() }, p))
                    } else {
                        let (data, p2) = if h.format == DataFormat::Point {
                            let (rows, q) = point_rows(ts, p, nn as nat, Seq::empty());
                            (columns(rows, nv), q)
                        } else {
                            block_data(ts, p, nn as nat, nv)
                        };
                        match h.element_type {
                            Some(et) => {
                                let (conn, p3) = connectivity(
                                    ts,
                                    p2,
                                    shape_nodes(shape_of(et)),
                                    h.num_elements as nat,
                                    Seq::empty(),
                                    0,
                                );
                                Some((ZoneSpec { header: h2, data, conn }, p3))
                            },
                            None => Some((ZoneSpec { header: h2, data, conn: Seq::empty() }, p2)),
                        }
                    }
                },
            }
        },
    }
}

/// A parsed zone.
pub struct TecplotZone {
    /// The header fields, node count settled.
    pub header: ZoneHeader,
    /// The number texts of each variable, in variable order.
    pub data: Vec<Vec<Vec<char>>>,
    /// The 0-based node indices of the elements.
    pub connectivity: Vec<u32>,
}

/// A zone as plain values.
pub open spec fn zone_view(z: TecplotZone) -> ZoneSpec {
    ZoneSpec { header: header_view(z.header), data: tables(z.data@), conn: z.connectivity@ }
}

fn header_node_count(h: &ZoneHeader) -> (r: Option<usize>)
    ensures
        r == node_count(header_view(*h)),
{
    if h.element_type.is_none() && h.num_nodes == 0 {
        let a: usize = if h.i_dim > 0 { h.i_dim } else { 1 };
        let b: usize = if h.j_dim > 0 { h.j_dim } else { 1 };
        let c: usize = if h.k_dim > 0 { h.k_dim } else { 1 };
        proof {
            let (x, y, z) = (a as int, b as int, c as int);
            assert(x * y >= 1 && x * y * z >= x * y) by (nonlinear_arith)
                requires
                    x >= 1,
                    y >= 1,
                    z >= 1,
            ;
        }
        match a.checked_mul(b) {
            Some(ab) => ab.checked_mul(c),
            None => None,
        }
    } else {
        Some(h.num_nodes)
    }
}

/// Reads the zone that starts on line `i` (see [`zone_at`]).
fn read_zone(ts: &Vec<Vec<char>>, us: &Vec<Vec<char>>, i: usize, nv: usize) -> (r: Option<(TecplotZone, usize)>)
    requires
        lines_ok(ts@, us@),
        i < ts@.len(),
    ensures
        match zone_at(texts(ts@), i as int, nv as nat) {
            Some((z, next)) => r matches Some((rz, rn)) && zone_view(rz) == z && rn == next && i < rn <= ts@.len(),
            None => r is None,
        },
{
    let ghost tv = texts(ts@);
    let n = ts.len();
    assert(tv[i as int] == ts@[i as int]@);
    let h0 = match strip_key_value(ts[i].as_slice(), "ZONE") {
        Some(v) => v,
        None => {
            return None;
        },
    };
    let (htext, p) = read_header_lines(ts, us, i + 1, h0);
    let mut h = parse_zone_header(htext.as_slice());
    let nn = match header_node_count(&h) {
        Some(n) => n,
        None => {
            return None;
        },
    };
    h.num_nodes = nn;
    if nn == 0 || nv == 0 {
        let z = TecplotZone { header: h, data: Vec::new(), connectivity: Vec::new() };
        proof {
            assert(tables(z.data@) =~= Seq::<Seq<Seq<char>>>::empty());
            assert(z.connectivity@ =~= Seq::<u32>::empty());
        }
        return Some((z, p));
    }
    let (data, p2) = match h.format {
        DataFormat::Point => {
            let (rows, q) = read_point_rows(ts, us, p, nn);
            (rows_to_columns(&rows, nv), q)
        },
        DataFormat::Block => read_block_data(ts, us, p, nn, nv),
    };
    match h.element_type {
        Some(et) => {
            let (conn, p3) = read_connectivity(ts, us, p2, et.nodes_per(), h.num_elements);
            Some((TecplotZone { header: h, data, connectivity: conn }, p3))
        },
        None => {
            let z = TecplotZone { header: h, data, connectivity: Vec::new() };
            assert(z.connectivity@ =~= Seq::<u32>::empty());
            Some((z, p2))
        },
    }
}

/// The `VARIABLES` declaration continued from line `p`: each following line that starts
/// with `"` or `,` is appended after a space. Gives the text and the first line after it.
pub open spec fn var_lines(ts: Seq<Seq<char>>, p: int, acc: Seq<char>) -> (Seq<char>, int)
    decreases ts.len() - p,
{
    if 0 <= p < ts.len() && (starts(ts[p], "\""@) || starts(ts[p], ","@)) {
        var_lines(ts, p + 1, acc + " "@ + ts[p])
    } else {
        (acc, p)
    }
}

fn read_var_lines(ts: &Vec<Vec<char>>, p: usize, first: Vec<char>) -> (r: (Vec<char>, usize))
    requires
        p <= ts@.len(),
    ensures
        (r.0@, r.1 as int) == var_lines(texts(ts@), p as int, first@),
        p <= r.1 <= ts@.len(),
{
    let ghost tv = texts(ts@);
    let mut acc = first;
    let mut i = p;
    while i < ts.len() && (starts_with(ts[i].as_slice(), "\"") || starts_with(ts[i].as_slice(), ","))
        invariant
            tv == texts(ts@),
            p <= i <= ts@.len(),
            var_lines(tv, p as int, first@) == var_lines(tv, i as int, acc@),
        decreases ts@.len() - i,
    {
        let t = ts[i].as_slice();
        assert(tv[i as int] == t@);
        let ghost before = acc@;
        acc.push(' ');
        let mut m: usize = 0;
        while m < t.len()
            invariant
                m <= t@.len(),
                acc@ == before.push(' ') + t@.subrange(0, m as int),
            decreases t@.len() - m,
        {
            acc.push(t[m]);
            assert(t@.subrange(0, m + 1) =~= t@.subrange(0, m as int).push(t@[m as int]));
            m = m + 1;
        }
        proof {
            reveal_strlit(" ");
            assert(acc@ =~= before + " "@ + t@);
        }
        i = i + 1;
    }
    (acc, i)
}

/// A parsed file as plain values: its variable names and zones.
pub struct FileSpec {
    pub variables: Seq<Seq<char>>,
    pub zones: Seq<ZoneSpec>,
}

/// The file read from line `i` on, given what was read before: blank and `#` lines are
/// passed over, `VARIABLES` sets the variable names, `ZONE` adds a zone, any other line is
/// skipped. `None` where a keyword cannot be cut off its line or a zone's node count
/// overflows.
pub open spec fn file_from(ts: Seq<Seq<char>>, i: int, f: FileSpec) -> Option<FileSpec>
    decreases ts.len() - i,
{
    if i < 0 || i >= ts.len() {
        Some(f)
    } else if ts[i].len() == 0 || ts[i][0] == '#' {
        file_from(ts, i + 1, f)
    } else {
        let u = upper_text(ts[i]);
        if starts(u, "TITLE"@) || starts(u, "FILETYPE"@) {
            file_from(ts, i + 1, f)
        } else if starts(u, "VARIABLES"@) {
            match key_rest(ts[i], "VARIABLES"@) {
                None => None,
                Some(first) => {
                    let (full, e) = var_lines(ts, i + 1, first);
                    if i < e <= ts.len() {
                        file_from(ts, e, FileSpec { variables: names_from(full, 0), ..f })
                    } else {
                        None
                    }
                },
            }
        } else if starts(u, "ZONE"@) {
            match zone_at(ts, i, f.variables.len()) {
                None => None,
                Some((z, next)) => if i < next <= ts.len() {
                    file_from(ts, next, FileSpec { zones: f.zones.push(z), ..f })
                } else {
                    None
                },
            }
        } else {
            file_from(ts, i + 1, f)
        }
    }
}

/// The error of the lines `ts[i..]` when [`file_from`] fails there: a `VARIABLES` line whose
/// keyword cannot be cut off, or a zone that cannot be read (its node count overflows).
pub open spec fn file_from_error(ts: Seq<Seq<char>>, i: int, f: FileSpec) -> Seq<char>
    decreases ts.len() - i,
{
    if i < 0 || i >= ts.len() {
        Seq::empty()
    } else if ts[i].len() == 0 || ts[i][0] == '#' {
        file_from_error(ts, i + 1, f)
    } else {
        let u = upper_text(ts[i]);
        if starts(u, "TITLE"@) || starts(u, "FILETYPE"@) {
            file_from_error(ts, i + 1, f)
        } else if starts(u, "VARIABLES"@) {
            match key_rest(ts[i], "VARIABLES"@) {
                None => "Tecplot parse error: malformed VARIABLES line"@,
                Some(first) => {
                    let (full, e) = var_lines(ts, i + 1, first);
                    if i < e <= ts.len() {
                        file_from_error(ts, e, FileSpec { variables: names_from(full, 0), ..f })
                    } else {
                        "Tecplot parse error: malformed VARIABLES line"@
                    }
                },
            }
        } else if starts(u, "ZONE"@) {
            match zone_at(ts, i, f.variables.len()) {
                None => "Tecplot parse error: zone size out of range"@,
                Some((z, next)) => if i < next <= ts.len() {
                    file_from_error(ts, next, FileSpec { zones: f.zones.push(z), ..f })
                } else {
                    "Tecplot parse error: zone size out of range"@
                },
            }
        } else {
            file_from_error(ts, i + 1, f)
        }
    }
}

/// The error of a text whose lines do not read as a Tecplot file (see [`file_from_error`]).
pub open spec fn text_error(text: Seq<char>) -> Seq<char> {
    file_from_error(trimmed_lines(text), 0, FileSpec { variables: Seq::empty(), zones: Seq::empty() })
}

/// The trimmed lines of a text.
pub open spec fn trimmed_lines(text: Seq<char>) -> Seq<Seq<char>> {
    crate::text::lines_from(text, 0).map_values(|l: Seq<char>| trim(l))
}

/// The file a text holds (see [`file_from`]).
pub open spec fn file_of(text: Seq<char>) -> Option<FileSpec> {
    file_from(trimmed_lines(text), 0, FileSpec { variables: Seq::empty(), zones: Seq::empty() })
}

/// A parsed Tecplot file.
pub struct TecplotFile {
    /// The variable names.
    pub variables: Vec<String>,
    /// The zones, in file order.
    pub zones: Vec<TecplotZone>,
}

/// The names held by strings.
pub open spec fn names(v: Seq<String>) -> Seq<Seq<char>> {
    v.map_values(|x: String| x@)
}

/// The zones as plain values.
pub open spec fn zone_views(v: Seq<TecplotZone>) -> Seq<ZoneSpec> {
    v.map_values(|x: TecplotZone| zone_view(x))
}

/// Reads the lines of a Tecplot file (see [`file_of`]): the variables and every zone. Fails
/// with a parse error on a keyword that cannot be cut off its line, or on a zone whose node
/// count overflows (see [`text_error`]).
pub fn parse_tecplot(text: &str) -> (r: Result<TecplotFile, IoError>)
    ensures
        match file_of(text@) {
            Some(f) => r matches Ok(tf) && names(tf.variables@) == f.variables && zone_views(tf.zones@) == f.zones,
            None => r matches Err(IoError::Parse(m)) && m@ == text_error(text@),
        },
{
    let cs = chars_of(text);
    let lines = crate::text::split_lines(cs.as_slice());
    let ghost raw = crate::text::lines_from(text@, 0);
    let mut ts: Vec<Vec<char>> = Vec::new();
    let mut us: Vec<Vec<char>> = Vec::new();
    let mut k: usize = 0;
    while k < lines.len()
        invariant
            k <= lines@.len(),
            raw == crate::text::lines_from(text@, 0),
            lines@.len() == raw.len(),
            forall|j: int| 0 <= j < lines@.len() ==> (#[trigger] lines@[j])@ == raw[j],
            texts(ts@) == trimmed_lines(text@).subrange(0, k as int),
            lines_ok(ts@, us@),
        decreases lines@.len() - k,
    {
        let t = trimmed(lines[k].as_slice());
        let u = upper_chars(t.as_slice());
        let ghost before = ts@;
        ts.push(t);
        us.push(u);
        assert(texts(ts@) =~= trimmed_lines(text@).subrange(0, k + 1)) by {
            assert(texts(ts@) =~= texts(before).push(t@));
        }
        k = k + 1;
    }
    let ghost tv = texts(ts@);
    assert(tv =~= trimmed_lines(text@));
    let mut variables: Vec<String> = Vec::new();
    let mut zones: Vec<TecplotZone> = Vec::new();
    let mut i: usize = 0;
    assert(names(variables@) =~= Seq::<Seq<char>>::empty());
    assert(zone_views(zones@) =~= Seq::<ZoneSpec>::empty());
    while i < ts.len()
        invariant
            tv == texts(ts@),
            lines_ok(ts@, us@),
            i <= ts@.len(),
            file_of(text@) == file_from(tv, i as int, FileSpec { variables: names(variables@), zones: zone_views(zones@) }),
            text_error(text@) == file_from_error(
                tv,
                i as int,
                FileSpec { variables: names(variables@), zones: zone_views(zones@) },
            ),
        decreases ts@.len() - i,
    {
        let t = ts[i].as_slice();
        assert(tv[i as int] == t@);
        if t.len() == 0 || t[0] == '#' {
            i = i + 1;
        } else {
            let u = us[i].as_slice();
            if starts_with(u, "TITLE") || starts_with(u, "FILETYPE") {
                i = i + 1;
            } else if starts_with(u, "VARIABLES") {
                let first = match strip_key_value(t, "VARIABLES") {
                    Some(v) => v,
                    None => {
                        return Err(parse_error("Tecplot parse error: malformed VARIABLES line"));
                    },
                };
                let (full, e) = read_var_lines(&ts, i + 1, first);
                let fs = string_of(full.as_slice(), 0, full.len());
                assert(full@.subrange(0, full@.len() as int) =~= full@);
                variables = parse_variable_names(fs.as_str());
                assert(names(variables@) =~= names_from(full@, 0));
                i = e;
            } else if starts_with(u, "ZONE") {
                match read_zone(&ts, &us, i, variables.len()) {
                    Some((z, next)) => {
                        let ghost before = zones@;
                        zones.push(z);
                        assert(zone_views(zones@) =~= zone_views(before).push(zone_view(z)));
                        i = next;
                    },
                    None => {
                        return Err(parse_error("Tecplot parse error: zone size out of range"));
                    },
                }
            } else {
                i = i + 1;
            }
        }
    }
    Ok(TecplotFile { variables, zones })
}


/// A zone's surface as plain values.
pub struct DatasetSpec {
    pub positions: Seq<(Seq<char>, Seq<char>, Option<Seq<char>>)>,
    pub indices: Seq<u32>,
    pub point_data: Seq<(Seq<char>, Seq<Seq<char>>)>,
}

/// Whether turning a zone into a dataset stays within its columns and index range: the
/// coordinate variables must have columns, and an ordered zone's I-J plane must be countable.
pub open spec fn zone_fits(z: ZoneSpec, vars: Seq<Seq<char>>) -> bool {
    let (xi, yi, zi) = xyz_of(upper_all(vars));
    &&& xi < z.data.len()
    &&& yi < z.data.len()
    &&& zi matches Some(v) ==> v < z.data.len()
    &&& z.header.element_type is None ==> z.header.i_dim * z.header.j_dim <= usize::MAX
}

/// Whether a zone has values to turn into a dataset.
pub open spec fn zone_has_data(z: ZoneSpec) -> bool {
    z.data.len() > 0 && z.header.num_nodes > 0
}

/// The scalar variables among the first `n`: every variable but the coordinates, with its
/// values, when it has any.
pub open spec fn scalar_data(
    vars: Seq<Seq<char>>,
    data: Seq<Seq<Seq<char>>>,
    xi: int,
    yi: int,
    zi: Option<int>,
    n: nat,
) -> Seq<(Seq<char>, Seq<Seq<char>>)>
    decreases n,
{
    if n == 0 {
        Seq::empty()
    } else {
        let vi = n - 1;
        scalar_data(vars, data, xi, yi, zi, (n - 1) as nat) + if vi == xi || vi == yi || zi == Some(vi)
            || vi >= data.len() || data[vi].len() == 0 {
            Seq::empty()
        } else {
            seq![(vars[vi], data[vi])]
        }
    }
}

/// The dataset of a zone that has values: points from the X, Y (and Z, when there is one)
/// columns, as many as the shorter of X and Y, Z missing past the end of its column;
/// triangles from the connectivity or the I-J plane; the other variables as point values.
pub open spec fn zone_dataset(z: ZoneSpec, vars: Seq<Seq<char>>) -> DatasetSpec {
    let (xi, yi, zi) = xyz_of(upper_all(vars));
    let xs = z.data[xi];
    let ys = z.data[yi];
    let zs = match zi {
        Some(v) => z.data[v],
        None => Seq::empty(),
    };
    let n = if xs.len() < ys.len() {
        xs.len()
    } else {
        ys.len()
    };
    DatasetSpec {
        positions: Seq::new(
            n,
            |k: int|
                (xs[k], ys[k], if k < zs.len() {
                    Some(zs[k])
                } else {
                    None
                }),
        ),
        indices: match z.header.element_type {
            Some(et) => fe_indices(et, z.conn),
            None => ordered_indices(z.header.i_dim as int, z.header.j_dim as int),
        },
        point_data: scalar_data(vars, z.data, xi, yi, zi, vars.len()),
    }
}

/// The surface of one zone.
pub struct ZoneDataset {
    /// Point coordinate texts: X, Y, and Z when the zone has one for the point.
    pub positions: Vec<(Vec<char>, Vec<char>, Option<Vec<char>>)>,
    /// Triangle corner indices into the points.
    pub indices: Vec<u32>,
    /// The other variables' values, by name, in variable order.
    pub point_data: Vec<(String, Vec<Vec<char>>)>,
}

/// Point coordinate texts as plain values.
pub open spec fn positions_view(ps: Seq<(Vec<char>, Vec<char>, Option<Vec<char>>)>) -> Seq<
    (Seq<char>, Seq<char>, Option<Seq<char>>),
> {
    ps.map_values(
        |p: (Vec<char>, Vec<char>, Option<Vec<char>>)|
            (p.0@, p.1@, match p.2 {
                Some(v) => Some(v@),
                None => None,
            }),
    )
}

/// Named value columns as plain values.
pub open spec fn pairs_view(ps: Seq<(String, Vec<Vec<char>>)>) -> Seq<(Seq<char>, Seq<Seq<char>>)> {
    ps.map_values(|p: (String, Vec<Vec<char>>)| (p.0@, texts(p.1@)))
}

/// A dataset as plain values.
pub open spec fn dataset_view(d: ZoneDataset) -> DatasetSpec {
    DatasetSpec {
        positions: positions_view(d.positions@),
        indices: d.indices@,
        point_data: pairs_view(d.point_data@),
    }
}

fn copy_column(c: &Vec<Vec<char>>) -> (r: Vec<Vec<char>>)
    ensures
        texts(r@) == texts(c@),
{
    let mut r: Vec<Vec<char>> = Vec::new();
    let mut k: usize = 0;
    while k < c.len()
        invariant
            k <= c@.len(),
            texts(r@) == texts(c@).subrange(0, k as int),
        decreases c@.len() - k,
    {
        let ghost before = r@;
        r.push(copy_text(&c[k]));
        assert(texts(r@) =~= texts(c@).subrange(0, k + 1)) by {
            assert(texts(r@) =~= texts(before).push(c@[k as int]@));
        }
        k = k + 1;
    }
    assert(texts(c@).subrange(0, c@.len() as int) =~= texts(c@));
    r
}

fn copy_string(s: &String) -> (r: String)
    ensures
        r@ == s@,
{
    let cs = chars_of(s.as_str());
    let r = string_of(cs.as_slice(), 0, cs.len());
    assert(cs@.subrange(0, cs@.len() as int) =~= s@);
    r
}

/// The dataset of a zone that has values and fits its columns (see [`zone_dataset`]).
pub fn zone_to_dataset(z: &TecplotZone, variables: &[String]) -> (r: ZoneDataset)
    requires
        zone_has_data(zone_view(*z)),
        zone_fits(zone_view(*z), names(variables@)),
    ensures
        dataset_view(r) == zone_dataset(zone_view(*z), names(variables@)),
{
    let ghost zv = zone_view(*z);
    assert(upper_names(variables@) =~= upper_all(names(variables@)));
    let (xi, yi, zi) = match find_xyz_indices(variables) {
        Ok(t) => t,
        Err(_) => (0, 0, None),
    };
    assert(zv.data.len() == z.data@.len());
    let xs = &z.data[xi];
    let ys = &z.data[yi];
    assert(texts(xs@) == zv.data[xi as int]);
    assert(texts(ys@) == zv.data[yi as int]);
    let n = if xs.len() < ys.len() { xs.len() } else { ys.len() };
    let mut positions: Vec<(Vec<char>, Vec<char>, Option<Vec<char>>)> = Vec::new();
    let ghost target = zone_dataset(zv, names(variables@));
    let mut k: usize = 0;
    while k < n
        invariant
            k <= n,
            n <= xs@.len(),
            n <= ys@.len(),
            n == target.positions.len(),
            zv == zone_view(*z),
            target == zone_dataset(zv, names(variables@)),
            texts(xs@) == zv.data[xi as int],
            texts(ys@) == zv.data[yi as int],
            xi < z.data@.len(),
            yi < z.data@.len(),
            zi matches Some(v) ==> v < z.data@.len(),
            upper_names(variables@) == upper_all(names(variables@)),
            ({
                let (a, b, c) = xyz_of(upper_names(variables@));
                a == xi && b == yi && c == opt_int(zi)
            }),
            positions@.len() == k,
            positions_view(positions@) == target.positions.subrange(0, k as int),
        decreases n - k,
    {
        let x = copy_text(&xs[k]);
        let y = copy_text(&ys[k]);
        let zval: Option<Vec<char>> = match zi {
            Some(v) => {
                let zs = &z.data[v];
                assert(texts(zs@) == zv.data[v as int]);
                if k < zs.len() {
                    Some(copy_text(&zs[k]))
                } else {
                    None
                }
            },
            None => None,
        };
        let ghost zcol: Seq<Seq<char>> = match zi {
            Some(v) => zv.data[v as int],
            None => Seq::empty(),
        };
        assert(match zval {
            Some(t) => k < zcol.len() && t@ == zcol[k as int],
            None => k >= zcol.len(),
        }) by {
            if let Some(v) = zi {
                assert(texts(z.data@[v as int]@) == zv.data[v as int]);
            }
        }
        assert(x@ == zv.data[xi as int][k as int]);
        assert(y@ == zv.data[yi as int][k as int]);
        let ghost before = positions@;
        positions.push((x, y, zval));
        proof {
            let pv = positions_view(positions@);
            assert(pv =~= target.positions.subrange(0, k + 1)) by {
                assert forall|j: int| 0 <= j < k + 1 implies #[trigger] pv[j] == target.positions[j] by {
                    if j < k {
                        assert(positions@[j] == before[j]);
                        assert(pv[j] == positions_view(before)[j]);
                        assert(positions_view(before)[j] == target.positions.subrange(0, k as int)[j]);
                    } else {
                        let (a, b, c) = xyz_of(upper_all(names(variables@)));
                        let zs = match c {
                            Some(v) => zv.data[v],
                            None => Seq::<Seq<char>>::empty(),
                        };
                        assert(zs == zcol);
                        assert(target.positions[j] == (zv.data[a][j], zv.data[b][j], if j < zs.len() {
                            Some(zs[j])
                        } else {
                            None
                        }));
                        assert(pv[j] == (x@, y@, match zval {
                            Some(t) => Some(t@),
                            None => None,
                        }));
                    }
                }
            }
        }
        k = k + 1;
    }
    let indices = match z.header.element_type {
        Some(et) => triangulate_fe(z.connectivity.as_slice(), et),
        None => triangulate_structured(z.header.i_dim, z.header.j_dim, z.header.k_dim),
    };
    let mut point_data: Vec<(String, Vec<Vec<char>>)> = Vec::new();
    let mut vi: usize = 0;
    while vi < variables.len()
        invariant
            vi <= variables@.len(),
            zv == zone_view(*z),
            upper_names(variables@) == upper_all(names(variables@)),
            ({
                let (a, b, c) = xyz_of(upper_names(variables@));
                a == xi && b == yi && c == opt_int(zi)
            }),
            pairs_view(point_data@) == scalar_data(names(variables@), zv.data, xi as int, yi as int, opt_int(zi), vi as nat),
        decreases variables@.len() - vi,
    {
        let is_z = match zi {
            Some(v) => v == vi,
            None => false,
        };
        let ghost before = point_data@;
        if !(vi == xi || vi == yi || is_z) && vi < z.data.len() && z.data[vi].len() > 0 {
            assert(texts(z.data@[vi as int]@) == zv.data[vi as int]);
            let name = copy_string(&variables[vi]);
            let col = copy_column(&z.data[vi]);
            point_data.push((name, col));
            assert(pairs_view(point_data@) =~= pairs_view(before).push((names(variables@)[vi as int], zv.data[vi as int])));
        } else {
            proof {
                if vi < z.data@.len() {
                    assert(texts(z.data@[vi as int]@) == zv.data[vi as int]);
                }
            }
        }
        vi = vi + 1;
    }
    let d = ZoneDataset { positions, indices, point_data };
    assert(dataset_view(d).positions =~= target.positions);
    d
}


/// The datasets of the first `n` zones: each zone with values yields its dataset, kept when
/// it has at least one point.
pub open spec fn zone_datasets(zs: Seq<ZoneSpec>, vars: Seq<Seq<char>>, n: nat) -> Seq<DatasetSpec>
    decreases n,
{
    if n == 0 {
        Seq::empty()
    } else {
        let z = zs[n - 1];
        zone_datasets(zs, vars, (n - 1) as nat) + if zone_has_data(z) && zone_dataset(z, vars).positions.len() > 0 {
            seq![zone_dataset(z, vars)]
        } else {
            Seq::empty()
        }
    }
}

/// Some zone with values does not fit its columns.
pub open spec fn some_zone_misfits(f: FileSpec) -> bool {
    exists|k: int| 0 <= k < f.zones.len() && zone_has_data(#[trigger] f.zones[k]) && !zone_fits(f.zones[k], f.variables)
}

/// The datasets a Tecplot text yields: one per zone that has values and points, in file
/// order. `None` when the text cannot be read (see [`file_of`]), has no zone, has a zone
/// that does not fit its columns, or yields no dataset.
pub open spec fn tecplot_datasets(text: Seq<char>) -> Option<Seq<DatasetSpec>> {
    match file_of(text) {
        None => None,
        Some(f) => file_datasets(f),
    }
}

/// The datasets of a read Tecplot file: one per zone that has values and points, in file
/// order. `None` when it has no zone, has a zone that does not fit its columns, or yields no
/// dataset.
pub open spec fn file_datasets(f: FileSpec) -> Option<Seq<DatasetSpec>> {
    let ds = zone_datasets(f.zones, f.variables, f.zones.len());
    if f.zones.len() == 0 || some_zone_misfits(f) || ds.len() == 0 {
        None
    } else {
        Some(ds)
    }
}

fn zone_has_values(z: &TecplotZone) -> (r: bool)
    ensures
        r == zone_has_data(zone_view(*z)),
{
    z.data.len() > 0 && z.header.num_nodes > 0
}

fn zone_in_range(z: &TecplotZone, variables: &[String]) -> (r: bool)
    ensures
        r == zone_fits(zone_view(*z), names(variables@)),
{
    assert(upper_names(variables@) =~= upper_all(names(variables@)));
    let (xi, yi, zi) = match find_xyz_indices(variables) {
        Ok(t) => t,
        Err(_) => (0, 0, None),
    };
    let n = z.data.len();
    let z_ok = match zi {
        Some(v) => v < n,
        None => true,
    };
    let plane_ok = match z.header.element_type {
        Some(_) => true,
        None => z.header.i_dim.checked_mul(z.header.j_dim).is_some(),
    };
    xi < n && yi < n && z_ok && plane_ok
}

/// The datasets of a Tecplot text (see [`tecplot_datasets`]), or a parse error when it yields
/// none: that of [`text_error`] when its lines do not read, else that of [`file_error`].
pub fn datasets_from_path(text: &str) -> (r: Result<Vec<ZoneDataset>, IoError>)
    ensures
        match tecplot_datasets(text@) {
            Some(ds) => r matches Ok(v) && v@.len() == ds.len() && forall|k: int|
                0 <= k < v@.len() ==> dataset_view(#[trigger] v@[k]) == ds[k],
            None => r matches Err(e) && e is Parse,
        },
        match file_of(text@) {
            Some(f) => file_datasets(f) is None ==> (r matches Err(IoError::Parse(m)) && m@ == file_error(f)),
            None => r matches Err(IoError::Parse(m)) && m@ == text_error(text@),
        },
{
    let file = match parse_tecplot(text) {
        Ok(f) => f,
        Err(e) => {
            return Err(e);
        },
    };
    file_to_datasets(&file)
}

/// The error of a read Tecplot file that yields no dataset: a zone that does not fit its
/// columns is named as such; no zone, or no zone with points, is an empty dataset.
pub open spec fn file_error(f: FileSpec) -> Seq<char> {
    if f.zones.len() > 0 && some_zone_misfits(f) {
        "Tecplot parse error: zone data do not match its variables"@
    } else {
        "empty dataset"@
    }
}

/// The datasets of a read Tecplot file (see [`file_datasets`]), or a parse error (see
/// [`file_error`]) when it yields none.
pub fn file_to_datasets(file: &TecplotFile) -> (r: Result<Vec<ZoneDataset>, IoError>)
    ensures
        match file_datasets(FileSpec { variables: names(file.variables@), zones: zone_views(file.zones@) }) {
            Some(ds) => r matches Ok(v) && v@.len() == ds.len() && forall|k: int|
                0 <= k < v@.len() ==> dataset_view(#[trigger] v@[k]) == ds[k],
            None => r matches Err(IoError::Parse(m)) && m@ == file_error(
                FileSpec { variables: names(file.variables@), zones: zone_views(file.zones@) },
            ),
        },
{
    let ghost fv = FileSpec { variables: names(file.variables@), zones: zone_views(file.zones@) };
    if file.zones.len() == 0 {
        return Err(parse_error("empty dataset"));
    }
    let mut k: usize = 0;
    while k < file.zones.len()
        invariant
            k <= file.zones@.len(),
            fv == (FileSpec { variables: names(file.variables@), zones: zone_views(file.zones@) }),
            forall|j: int| 0 <= j < k ==> zone_has_data(#[trigger] fv.zones[j]) ==> zone_fits(fv.zones[j], fv.variables),
        decreases file.zones@.len() - k,
    {
        assert(fv.zones[k as int] == zone_view(file.zones@[k as int]));
        if zone_has_values(&file.zones[k]) && !zone_in_range(&file.zones[k], file.variables.as_slice()) {
            assert(some_zone_misfits(fv));
            return Err(parse_error("Tecplot parse error: zone data do not match its variables"));
        }
        k = k + 1;
    }
    assert(!some_zone_misfits(fv));
    let mut out: Vec<ZoneDataset> = Vec::new();
    let mut k: usize = 0;
    while k < file.zones.len()
        invariant
            k <= file.zones@.len(),
            fv == (FileSpec { variables: names(file.variables@), zones: zone_views(file.zones@) }),
            !some_zone_misfits(fv),
            out@.len() == zone_datasets(fv.zones, fv.variables, k as nat).len(),
            forall|j: int| 0 <= j < out@.len() ==> dataset_view(#[trigger] out@[j]) == zone_datasets(fv.zones, fv.variables, k as nat)[j],
        decreases file.zones@.len() - k,
    {
        let z = &file.zones[k];
        assert(fv.zones[k as int] == zone_view(*z));
        let ghost prev = out@;
        if zone_has_values(z) {
            assert(zone_fits(fv.zones[k as int], fv.variables));
            let d = zone_to_dataset(z, file.variables.as_slice());
            if d.positions.len() > 0 {
                assert(positions_view(d.positions@).len() == d.positions@.len());
                out.push(d);
            }
        }
        proof {
            let a = zone_datasets(fv.zones, fv.variables, (k + 1) as nat);
            let b = zone_datasets(fv.zones, fv.variables, k as nat);
            let zk = fv.zones[k as int];
            if zone_has_data(zk) && zone_dataset(zk, fv.variables).positions.len() > 0 {
                assert(a =~= b.push(zone_dataset(zk, fv.variables)));
                assert forall|j: int| 0 <= j < out@.len() implies dataset_view(#[trigger] out@[j]) == a[j] by {
                    if j < prev.len() {
                        assert(out@[j] == prev[j]);
                    }
                }
            } else {
                assert(a =~= b);
                assert(out@ == prev);
            }
        }
        k = k + 1;
    }
    if out.len() == 0 {
        return Err(parse_error("empty dataset"));
    }
    Ok(out)
}

} // verus!
