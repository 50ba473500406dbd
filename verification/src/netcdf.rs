//! NetCDF files as scientific datasets: which variables are coordinates, time or data, how
//! a data variable's dimensions map onto the x, y and z axes, and the triangles of 2-D
//! grids.
use vstd::prelude::*;

use crate::cgns::{lemma_flat_node, lemma_node_at_below, node_at, node_index};
use crate::error::{parse_error, IoError};
use crate::mesh::{grid_cells, lemma_grid_cells, row_cells};
use crate::text::{chars_of, has_sub, lower_text, to_lower, to_upper, upper_text};

verus! {

/// The element types of NetCDF variables that the decoder tells apart.
#[derive(Clone, Copy, Debug, PartialEq, Eq, Structural)]
pub enum NcKind {
    Byte,
    Char,
    Short,
    Int,
    Float,
    Double,
    UByte,
    UShort,
    UInt,
    Int64,
    UInt64,
    /// Any other type (strings and user-defined types).
    Other,
}

/// Whether a type holds numbers.
pub open spec fn numeric(k: NcKind) -> bool {
    !(k is Char || k is Other)
}

/// Whether a type holds numbers.
pub fn is_numeric_type(k: NcKind) -> (r: bool)
    ensures
        r == numeric(k),
{
    match k {
        NcKind::Char | NcKind::Other => false,
        _ => true,
    }
}

/// A variable of a NetCDF file as plain values.
pub struct NcVar {
    /// Its name.
    pub name: String,
    /// Its dimensions, in order, as names and sizes.
    pub dims: Vec<(String, u64)>,
    /// Whether the file reader counts it a coordinate variable.
    pub is_coordinate: bool,
    /// Its element type.
    pub kind: NcKind,
    /// Its `axis` attribute, when that is text.
    pub axis: Option<String>,
    /// Its `units` attribute, when that is text.
    pub units: Option<String>,
}

/// A text attribute, or the empty text for none.
pub open spec fn attr_text(a: Option<String>) -> Seq<char> {
    match a {
        Some(s) => s@,
        None => Seq::empty(),
    }
}

/// Whether a variable is the time coordinate: a coordinate variable named `time` or `t` in
/// any case, or with `axis` exactly `T`, or with `units` containing `since`.
pub open spec fn is_time_var(v: NcVar) -> bool {
    let l = lower_text(v.name@);
    &&& v.is_coordinate
    &&& (l == "time"@ || l == "t"@ || attr_text(v.axis) == "T"@ || (v.units is Some && has_sub(attr_text(v.units), "since"@)))
}

/// The first variable from `k` on that is the time coordinate.
pub open spec fn time_from(vars: Seq<NcVar>, k: int) -> Option<usize>
    decreases vars.len() - k,
{
    if k < 0 || k >= vars.len() {
        None
    } else if is_time_var(vars[k]) {
        Some(k as usize)
    } else {
        time_from(vars, k + 1)
    }
}

/// Whether the characters `s` are exactly `kw`.
fn text_is(s: &str, kw: &str) -> (r: bool)
    ensures
        r == (s@ == kw@),
{
    let cs = chars_of(s);
    let n = cs.len();
    assert(cs@.subrange(0, n as int) =~= cs@);
    crate::text::range_is(cs.as_slice(), 0, n, kw)
}

/// Whether the text `s` contains `p`.
fn text_has(s: &str, p: &str) -> (r: bool)
    ensures
        r == has_sub(s@, p@),
{
    let cs = chars_of(s);
    crate::text::contains_text(cs.as_slice(), p)
}

fn is_time_variable(v: &NcVar) -> (r: bool)
    ensures
        r == is_time_var(*v),
{
    proof {
        reveal_strlit("T");
        assert("T"@.len() == 1);
    }
    if !v.is_coordinate {
        return false;
    }
    let l = to_lower(v.name.as_str());
    if text_is(l.as_str(), "time") || text_is(l.as_str(), "t") {
        return true;
    }
    if let Some(a) = &v.axis {
        if text_is(a.as_str(), "T") {
            return true;
        }
    }
    match &v.units {
        Some(u) => text_has(u.as_str(), "since"),
        None => false,
    }
}

/// The time coordinate of a file: the first variable that is one (see [`is_time_var`]).
pub fn detect_time_coord(vars: &[NcVar]) -> (r: Option<usize>)
    ensures
        r == time_from(vars@, 0),
{
    let mut k: usize = 0;
    while k < vars.len()
        invariant
            k <= vars@.len(),
            time_from(vars@, 0) == time_from(vars@, k as int),
        decreases vars@.len() - k,
    {
        if is_time_variable(&vars[k]) {
            return Some(k);
        }
        k = k + 1;
    }
    None
}

/// The upper-cased `axis` attribute of a variable (empty when it has none).
pub open spec fn axis_upper(v: NcVar) -> Seq<char> {
    upper_text(attr_text(v.axis))
}

/// Whether a coordinate variable is an x axis: `axis` X, or named `x`, `lon`, `longitude`
/// or `xc` in any case.
pub open spec fn is_x_var(v: NcVar) -> bool {
    let l = lower_text(v.name@);
    axis_upper(v) == "X"@ || l == "x"@ || l == "lon"@ || l == "longitude"@ || l == "xc"@
}

/// Whether a coordinate variable is a y axis: `axis` Y, or named `y`, `lat`, `latitude` or
/// `yc` in any case.
pub open spec fn is_y_var(v: NcVar) -> bool {
    let l = lower_text(v.name@);
    axis_upper(v) == "Y"@ || l == "y"@ || l == "lat"@ || l == "latitude"@ || l == "yc"@
}

/// Whether a coordinate variable is a z axis: `axis` Z, or named `z`, `depth`, `height`,
/// `level`, `lev` or `zc` in any case.
pub open spec fn is_z_var(v: NcVar) -> bool {
    let l = lower_text(v.name@);
    axis_upper(v) == "Z"@ || l == "z"@ || l == "depth"@ || l == "height"@ || l == "level"@ || l == "lev"@ || l
        == "zc"@
}

/// The x, y and z axis variables found among the coordinate variables from `k` on, after
/// `acc`: each coordinate variable fills the first of x, y, z (in that order) that it
/// qualifies for and that is still open.
pub open spec fn axes_from(vars: Seq<NcVar>, k: int, acc: (Option<usize>, Option<usize>, Option<usize>)) -> (
    Option<usize>,
    Option<usize>,
    Option<usize>,
)
    decreases vars.len() - k,
{
    if k < 0 || k >= vars.len() {
        acc
    } else {
        let v = vars[k];
        let next = if !v.is_coordinate {
            acc
        } else if is_x_var(v) && acc.0 is None {
            (Some(k as usize), acc.1, acc.2)
        } else if is_y_var(v) && acc.1 is None {
            (acc.0, Some(k as usize), acc.2)
        } else if is_z_var(v) && acc.2 is None {
            (acc.0, acc.1, Some(k as usize))
        } else {
            acc
        };
        axes_from(vars, k + 1, next)
    }
}

/// The x, y and z axis variables of a file (see [`axes_from`]).
pub fn detect_spatial_axes(vars: &[NcVar]) -> (r: (Option<usize>, Option<usize>, Option<usize>))
    ensures
        r == axes_from(vars@, 0, (None, None, None)),
{
    let mut acc: (Option<usize>, Option<usize>, Option<usize>) = (None, None, None);
    let mut k: usize = 0;
    while k < vars.len()
        invariant
            k <= vars@.len(),
            axes_from(vars@, 0, (None, None, None)) == axes_from(vars@, k as int, acc),
        decreases vars@.len() - k,
    {
        let v = &vars[k];
        if v.is_coordinate {
            let l = to_lower(v.name.as_str());
            let a = match &v.axis {
                Some(t) => to_upper(t.as_str()),
                None => {
                    proof {
                        reveal_strlit("");
                        assert(""@ =~= Seq::<char>::empty());
                    }
                    to_upper("")
                },
            };
            let ls = l.as_str();
            let is_x = text_is(a.as_str(), "X") || text_is(ls, "x") || text_is(ls, "lon") || text_is(ls, "longitude")
                || text_is(ls, "xc");
            let is_y = text_is(a.as_str(), "Y") || text_is(ls, "y") || text_is(ls, "lat") || text_is(ls, "latitude")
                || text_is(ls, "yc");
            let is_z = text_is(a.as_str(), "Z") || text_is(ls, "z") || text_is(ls, "depth") || text_is(ls, "height")
                || text_is(ls, "level") || text_is(ls, "lev") || text_is(ls, "zc");
            if is_x && acc.0.is_none() {
                acc = (Some(k), acc.1, acc.2);
            } else if is_y && acc.1.is_none() {
                acc = (acc.0, Some(k), acc.2);
            } else if is_z && acc.2.is_none() {
                acc = (acc.0, acc.1, Some(k));
            }
        }
        k = k + 1;
    }
    acc
}

/// A variable is marked or named as an x coordinate: `axis` X, or named `x`, `lon`,
/// `longitude` or `xc` in any case.
pub open spec fn x_named(v: NcVar) -> bool {
    let l = lower_text(v.name@);
    ||| axis_upper(v) == "X"@
    ||| l == "x"@
    ||| l == "lon"@
    ||| l == "longitude"@
    ||| l == "xc"@
}

/// A variable is marked or named as a y coordinate: `axis` Y, or named `y`, `lat`,
/// `latitude` or `yc` in any case.
pub open spec fn y_named(v: NcVar) -> bool {
    let l = lower_text(v.name@);
    ||| axis_upper(v) == "Y"@
    ||| l == "y"@
    ||| l == "lat"@
    ||| l == "latitude"@
    ||| l == "yc"@
}

/// A variable is marked or named as a z coordinate: `axis` Z, or named `z`, `depth`,
/// `height`, `level`, `lev` or `zc` in any case.
pub open spec fn z_named(v: NcVar) -> bool {
    let l = lower_text(v.name@);
    ||| axis_upper(v) == "Z"@
    ||| l == "z"@
    ||| l == "depth"@
    ||| l == "height"@
    ||| l == "level"@
    ||| l == "lev"@
    ||| l == "zc"@
}

/// An x axis found at `j` is a coordinate variable marked or named x.
pub open spec fn found_x(vars: Seq<NcVar>, a: Option<usize>) -> bool {
    a matches Some(j) ==> j < vars.len() && vars[j as int].is_coordinate && x_named(vars[j as int])
}

/// A y axis found at `j` is a coordinate variable marked or named y.
pub open spec fn found_y(vars: Seq<NcVar>, a: Option<usize>) -> bool {
    a matches Some(j) ==> j < vars.len() && vars[j as int].is_coordinate && y_named(vars[j as int])
}

/// A z axis found at `j` is a coordinate variable marked or named z.
pub open spec fn found_z(vars: Seq<NcVar>, a: Option<usize>) -> bool {
    a matches Some(j) ==> j < vars.len() && vars[j as int].is_coordinate && z_named(vars[j as int])
}

/// The axis is found at or before `m`.
pub open spec fn found_by(a: Option<usize>, m: int) -> bool {
    a matches Some(j) && j <= m
}

proof fn lemma_axes_scan(vars: Seq<NcVar>, k: int, acc: (Option<usize>, Option<usize>, Option<usize>))
    requires
        0 <= k <= vars.len(),
        vars.len() <= usize::MAX,
        found_x(vars, acc.0),
        found_y(vars, acc.1),
        found_z(vars, acc.2),
        acc.0 matches Some(j) ==> j < k,
        acc.1 matches Some(j) ==> j < k,
        acc.2 matches Some(j) ==> j < k,
    ensures
        ({
            let r = axes_from(vars, k, acc);
            &&& found_x(vars, r.0)
            &&& found_y(vars, r.1)
            &&& found_z(vars, r.2)
            &&& acc.0 is Some ==> r.0 == acc.0
            &&& acc.1 is Some ==> r.1 == acc.1
            &&& acc.2 is Some ==> r.2 == acc.2
            &&& forall|m: int|
                k <= m < vars.len() && (#[trigger] vars[m]).is_coordinate && x_named(vars[m]) ==> found_by(r.0, m)
            &&& forall|m: int|
                k <= m < vars.len() && (#[trigger] vars[m]).is_coordinate && y_named(vars[m]) && !x_named(vars[m])
                    ==> found_by(r.1, m)
            &&& forall|m: int|
                k <= m < vars.len() && (#[trigger] vars[m]).is_coordinate && z_named(vars[m]) && !x_named(vars[m])
                    && !y_named(vars[m]) ==> found_by(r.2, m)
        }),
    decreases vars.len() - k,
{
    if k < vars.len() {
        let v = vars[k];
        let next = if !v.is_coordinate {
            acc
        } else if is_x_var(v) && acc.0 is None {
            (Some(k as usize), acc.1, acc.2)
        } else if is_y_var(v) && acc.1 is None {
            (acc.0, Some(k as usize), acc.2)
        } else if is_z_var(v) && acc.2 is None {
            (acc.0, acc.1, Some(k as usize))
        } else {
            acc
        };
        assert(is_x_var(v) == x_named(v));
        assert(is_y_var(v) == y_named(v));
        assert(is_z_var(v) == z_named(v));
        assert(axes_from(vars, k, acc) == axes_from(vars, k + 1, next));
        lemma_axes_scan(vars, k + 1, next);
    }
}

/// The x, y and z axes a file's coordinate variables give (see [`detect_spatial_axes`]), by
/// name: each axis found is a coordinate variable marked or named for it; the x axis is
/// found as soon as a coordinate variable marked or named x appears (a `lon` or `longitude`
/// coordinate is an x axis); the y axis as soon as one marked or named y (and not x)
/// appears; the z axis as soon as one marked or named z (and neither x nor y) appears.
pub proof fn lemma_axes_by_name(vars: Seq<NcVar>)
    requires
        vars.len() <= usize::MAX,
    ensures
        ({
            let r = axes_from(vars, 0, (None, None, None));
            &&& found_x(vars, r.0)
            &&& found_y(vars, r.1)
            &&& found_z(vars, r.2)
            &&& forall|m: int|
                0 <= m < vars.len() && (#[trigger] vars[m]).is_coordinate && x_named(vars[m]) ==> found_by(r.0, m)
            &&& forall|m: int|
                0 <= m < vars.len() && (#[trigger] vars[m]).is_coordinate && y_named(vars[m]) && !x_named(vars[m])
                    ==> found_by(r.1, m)
            &&& forall|m: int|
                0 <= m < vars.len() && (#[trigger] vars[m]).is_coordinate && z_named(vars[m]) && !x_named(vars[m])
                    && !y_named(vars[m]) ==> found_by(r.2, m)
        }),
{
    lemma_axes_scan(vars, 0, (None, None, None));
}

/// Whether some coordinate variable is named `name`.
pub open spec fn coord_named(vars: Seq<NcVar>, name: Seq<char>) -> bool {
    exists|k: int| 0 <= k < vars.len() && (#[trigger] vars[k]).is_coordinate && vars[k].name@ == name
}

/// Whether a variable is data to show: not named like a coordinate variable, not a bounds
/// variable (`_bnds`, `_bounds`), with at least one dimension and numbers as values.
pub open spec fn is_data_var(vars: Seq<NcVar>, v: NcVar) -> bool {
    &&& !coord_named(vars, v.name@)
    &&& !has_sub(v.name@, "_bnds"@)
    &&& !has_sub(v.name@, "_bounds"@)
    &&& v.dims@.len() >= 1
    &&& numeric(v.kind)
}

/// The data variables among the first `k`, in order.
pub open spec fn data_vars_below(vars: Seq<NcVar>, k: nat) -> Seq<usize>
    decreases k,
{
    if k == 0 {
        Seq::empty()
    } else {
        data_vars_below(vars, (k - 1) as nat) + if is_data_var(vars, vars[k - 1]) {
            seq![(k - 1) as usize]
        } else {
            Seq::empty()
        }
    }
}

fn is_coord_name(vars: &[NcVar], name: &str) -> (r: bool)
    ensures
        r == coord_named(vars@, name@),
{
    let mut k: usize = 0;
    while k < vars.len()
        invariant
            k <= vars@.len(),
            forall|j: int| 0 <= j < k ==> !((#[trigger] vars@[j]).is_coordinate && vars@[j].name@ == name@),
        decreases vars@.len() - k,
    {
        if vars[k].is_coordinate && text_is(vars[k].name.as_str(), name) {
            return true;
        }
        k = k + 1;
    }
    false
}

/// The data variables of a file, in order (see [`is_data_var`]).
pub fn data_variables(vars: &[NcVar]) -> (r: Vec<usize>)
    ensures
        r@ == data_vars_below(vars@, vars@.len()),
{
    let mut r: Vec<usize> = Vec::new();
    let mut k: usize = 0;
    while k < vars.len()
        invariant
            k <= vars@.len(),
            r@ == data_vars_below(vars@, k as nat),
        decreases vars@.len() - k,
    {
        let v = &vars[k];
        let n = v.name.as_str();
        if !is_coord_name(vars, n) && !text_has(n, "_bnds") && !text_has(n, "_bounds") && v.dims.len() >= 1
            && is_numeric_type(v.kind) {
            r.push(k);
        }
        assert(r@ =~= data_vars_below(vars@, (k + 1) as nat));
        k = k + 1;
    }
    r
}

/// Where the coordinate values along one axis come from.
#[derive(Clone, Copy, Debug, PartialEq, Eq, Structural)]
pub enum AxisSource {
    /// The values of the detected axis variable: 0 for x, 1 for y, 2 for z.
    Coordinate(usize),
    /// The indices `0, 1, .., n - 1`.
    Indices(u64),
    /// No values.
    Missing,
}

/// A detected axis variable: its name and how many values it holds.
pub struct AxisInfo {
    pub name: String,
    pub len: usize,
}

/// The detected x, y and z axis variables of a file.
pub struct SpatialAxes {
    pub x: Option<AxisInfo>,
    pub y: Option<AxisInfo>,
    pub z: Option<AxisInfo>,
}

/// The value count of an axis, 0 when it is not there.
pub open spec fn info_len(a: Option<AxisInfo>) -> nat {
    match a {
        Some(i) => i.len as nat,
        None => 0,
    }
}

/// How many values a source gives.
pub open spec fn source_len(s: AxisSource, ax: SpatialAxes) -> nat {
    match s {
        AxisSource::Coordinate(a) => if a == 0 {
            info_len(ax.x)
        } else if a == 1 {
            info_len(ax.y)
        } else if a == 2 {
            info_len(ax.z)
        } else {
            0
        },
        AxisSource::Indices(n) => n as nat,
        AxisSource::Missing => 0,
    }
}

/// The detected axis a dimension is named after: x first, then y, then z.
pub open spec fn try_match(ax: SpatialAxes, name: Seq<char>) -> Option<usize> {
    if ax.x matches Some(i) && i.name@ == name {
        Some(0)
    } else if ax.y matches Some(i) && i.name@ == name {
        Some(1)
    } else if ax.z matches Some(i) && i.name@ == name {
        Some(2)
    } else {
        None
    }
}

/// The sources of the three axes.
pub type Sources = (AxisSource, AxisSource, AxisSource);

/// The first pass over the last `n` dimensions, last first: a dimension named after a
/// detected axis takes that axis's values (a later one replacing an earlier); the others are
/// set aside, as names and sizes, in that order.
pub open spec fn match_pass(dims: Seq<(String, u64)>, ax: SpatialAxes, n: nat) -> (Sources, Seq<(Seq<char>, u64)>)
    decreases n,
{
    if n == 0 {
        ((AxisSource::Missing, AxisSource::Missing, AxisSource::Missing), Seq::empty())
    } else {
        let (st, un) = match_pass(dims, ax, (n - 1) as nat);
        let d = dims[dims.len() - n];
        match try_match(ax, d.0@) {
            Some(a) => if a == 0 {
                ((AxisSource::Coordinate(0), st.1, st.2), un)
            } else if a == 1 {
                ((st.0, AxisSource::Coordinate(1), st.2), un)
            } else {
                ((st.0, st.1, AxisSource::Coordinate(2)), un)
            },
            None => (st, un.push((d.0@, d.1))),
        }
    }
}

/// One set-aside dimension (name and size) given its indices as values: to x if x is empty
/// and the lower-cased name contains `x`, `lon` or `col`; else to y if y is empty and it
/// contains `y`, `lat` or `row`; else to the first empty of z, y, x.
pub open spec fn unmatched_step(st: Sources, name: Seq<char>, size: u64, ax: SpatialAxes) -> Sources {
    let l = lower_text(name);
    let syn = AxisSource::Indices(size);
    if source_len(st.0, ax) == 0 && (has_sub(l, "x"@) || has_sub(l, "lon"@) || has_sub(l, "col"@)) {
        (syn, st.1, st.2)
    } else if source_len(st.1, ax) == 0 && (has_sub(l, "y"@) || has_sub(l, "lat"@) || has_sub(l, "row"@)) {
        (st.0, syn, st.2)
    } else if source_len(st.2, ax) == 0 {
        (st.0, st.1, syn)
    } else if source_len(st.1, ax) == 0 {
        (st.0, syn, st.2)
    } else if source_len(st.0, ax) == 0 {
        (syn, st.1, st.2)
    } else {
        st
    }
}

/// The set-aside dimensions `un[0..n]` placed in turn (see [`unmatched_step`]).
pub open spec fn unmatched_pass(st: Sources, un: Seq<(Seq<char>, u64)>, ax: SpatialAxes, n: nat) -> Sources
    decreases n,
{
    if n == 0 {
        st
    } else {
        let prev = unmatched_pass(st, un, ax, (n - 1) as nat);
        unmatched_step(prev, un[n - 1].0, un[n - 1].1, ax)
    }
}

/// The last pass over the last `n` dimensions, last first: each gives its indices to the
/// first of x, y, z still empty.
pub open spec fn fallback_pass(st: Sources, dims: Seq<(String, u64)>, ax: SpatialAxes, n: nat) -> Sources
    decreases n,
{
    if n == 0 {
        st
    } else {
        let prev = fallback_pass(st, dims, ax, (n - 1) as nat);
        let syn = AxisSource::Indices(dims[dims.len() - n].1);
        if source_len(prev.0, ax) == 0 {
            (syn, prev.1, prev.2)
        } else if source_len(prev.1, ax) == 0 {
            (prev.0, syn, prev.2)
        } else if source_len(prev.2, ax) == 0 {
            (prev.0, prev.1, syn)
        } else {
            prev
        }
    }
}

/// Where the x, y and z values of a variable with spatial dimensions `dims` come from: the
/// three passes of [`match_pass`], [`unmatched_pass`] and [`fallback_pass`].
pub open spec fn resolve_axes(dims: Seq<(String, u64)>, ax: SpatialAxes) -> Sources {
    let (st, un) = match_pass(dims, ax, dims.len());
    let st2 = unmatched_pass(st, un, ax, un.len());
    fallback_pass(st2, dims, ax, dims.len())
}

/// Whether a source gives no values (see [`source_len`]).
fn source_empty(s: AxisSource, ax: &SpatialAxes) -> (r: bool)
    ensures
        r == (source_len(s, *ax) == 0),
{
    match s {
        AxisSource::Coordinate(a) => {
            let info = if a == 0 {
                &ax.x
            } else if a == 1 {
                &ax.y
            } else if a == 2 {
                &ax.z
            } else {
                return true;
            };
            match info {
                Some(i) => i.len == 0,
                None => true,
            }
        },
        AxisSource::Indices(n) => n == 0,
        AxisSource::Missing => true,
    }
}

fn axis_named(ax: &SpatialAxes, name: &str) -> (r: Option<usize>)
    ensures
        r == try_match(*ax, name@),
{
    if let Some(i) = &ax.x {
        if text_is(i.name.as_str(), name) {
            return Some(0);
        }
    }
    if let Some(i) = &ax.y {
        if text_is(i.name.as_str(), name) {
            return Some(1);
        }
    }
    if let Some(i) = &ax.z {
        if text_is(i.name.as_str(), name) {
            return Some(2);
        }
    }
    None
}

/// Where the x, y and z values of a variable with spatial dimensions `dims` come from (see
/// [`resolve_axes`]).
pub fn resolve_spatial_coords(dims: &[(String, u64)], ax: &SpatialAxes) -> (r: Sources)
    ensures
        r == resolve_axes(dims@, *ax),
{
    let n = dims.len();
    let mut st: Sources = (AxisSource::Missing, AxisSource::Missing, AxisSource::Missing);
    let mut un: Vec<(String, u64)> = Vec::new();
    let mut k: usize = 0;
    while k < n
        invariant
            k <= n,
            n == dims@.len(),
            (st, un@.map_values(|d: (String, u64)| (d.0@, d.1))) == match_pass(dims@, *ax, k as nat),
        decreases n - k,
    {
        let d = &dims[n - 1 - k];
        let ghost before = un@;
        match axis_named(ax, d.0.as_str()) {
            Some(a) => {
                if a == 0 {
                    st = (AxisSource::Coordinate(0), st.1, st.2);
                } else if a == 1 {
                    st = (st.0, AxisSource::Coordinate(1), st.2);
                } else {
                    st = (st.0, st.1, AxisSource::Coordinate(2));
                }
            },
            None => {
                un.push((d.0.clone(), d.1));
                assert(un@.map_values(|d: (String, u64)| (d.0@, d.1)) =~= before.map_values(
                    |d: (String, u64)| (d.0@, d.1),
                ).push((dims@[n - (k + 1)].0@, dims@[n - (k + 1)].1)));
            },
        }
        k = k + 1;
    }
    let ghost st1 = st;
    let ghost unv = un@.map_values(|d: (String, u64)| (d.0@, d.1));
    let mut u: usize = 0;
    while u < un.len()
        invariant
            u <= un@.len(),
            unv == un@.map_values(|d: (String, u64)| (d.0@, d.1)),
            st == unmatched_pass(st1, unv, *ax, u as nat),
        decreases un@.len() - u,
    {
        let l = to_lower(un[u].0.as_str());
        let ls = l.as_str();
        let size = un[u].1;
        let syn = AxisSource::Indices(size);
        let (ex, ey, ez) = (source_empty(st.0, ax), source_empty(st.1, ax), source_empty(st.2, ax));
        proof {
            assert(unv[u as int] == (un@[u as int].0@, un@[u as int].1));
        }
        if ex && (text_has(ls, "x") || text_has(ls, "lon") || text_has(ls, "col")) {
            st = (syn, st.1, st.2);
        } else if ey && (text_has(ls, "y") || text_has(ls, "lat") || text_has(ls, "row")) {
            st = (st.0, syn, st.2);
        } else if ez {
            st = (st.0, st.1, syn);
        } else if ey {
            st = (st.0, syn, st.2);
        } else if ex {
            st = (syn, st.1, st.2);
        }
        u = u + 1;
    }
    let ghost st2 = st;
    let mut k: usize = 0;
    while k < n
        invariant
            k <= n,
            n == dims@.len(),
            st == fallback_pass(st2, dims@, *ax, k as nat),
        decreases n - k,
    {
        let syn = AxisSource::Indices(dims[n - 1 - k].1);
        if source_empty(st.0, ax) {
            st = (syn, st.1, st.2);
        } else if source_empty(st.1, ax) {
            st = (st.0, syn, st.2);
        } else if source_empty(st.2, ax) {
            st = (st.0, st.1, syn);
        }
        k = k + 1;
    }
    st
}

/// Cell `(j, i)` of a 2-D grid `nx` points wide: the quad from point `i + j * nx`, split
/// into the triangles `v00 v10 v11` and `v00 v11 v01`.
pub open spec fn surface_cell(nx: int) -> spec_fn(int, int) -> Seq<u32> {
    |j: int, i: int|
        {
            let v00 = node_at(nx, 0, i, j, 0);
            let v10 = node_at(nx, 0, i + 1, j, 0);
            let v01 = node_at(nx, 0, i, j + 1, 0);
            let v11 = node_at(nx, 0, i + 1, j + 1, 0);
            seq![v00, v10, v11, v00, v11, v01]
        }
}

/// The triangles of an `nx` by `ny` point grid, row by row; none unless both are at least 2.
pub open spec fn surface_grid(nx: int, ny: int) -> Seq<u32> {
    if nx >= 2 && ny >= 2 {
        grid_cells(surface_cell(nx), (ny - 1) as nat, (nx - 1) as nat)
    } else {
        Seq::empty()
    }
}

/// The triangles of an `nx` by `ny` point grid (see [`surface_grid`]).
pub fn surface_indices(nx: usize, ny: usize) -> (r: Vec<u32>)
    requires
        nx * ny <= usize::MAX,
    ensures
        r@ == surface_grid(nx as int, ny as int),
{
    let mut out: Vec<u32> = Vec::new();
    if nx < 2 || ny < 2 {
        return out;
    }
    let ghost cell = surface_cell(nx as int);
    let mut j: usize = 0;
    while j < ny - 1
        invariant
            2 <= nx,
            2 <= ny,
            nx * ny <= usize::MAX,
            j <= ny - 1,
            cell == surface_cell(nx as int),
            out@ == grid_cells(cell, j as nat, (nx - 1) as nat),
        decreases ny - 1 - j,
    {
        let mut i: usize = 0;
        while i < nx - 1
            invariant
                2 <= nx,
                2 <= ny,
                nx * ny <= usize::MAX,
                j < ny - 1,
                i <= nx - 1,
                cell == surface_cell(nx as int),
                out@ == grid_cells(cell, j as nat, (nx - 1) as nat) + row_cells(cell, j as int, i as nat),
            decreases nx - 1 - i,
        {
            assert(nx * ny * 1 == nx * ny) by (nonlinear_arith);
            let v00 = node_index(nx, ny, 1, i, j, 0);
            let v10 = node_index(nx, ny, 1, i + 1, j, 0);
            let v01 = node_index(nx, ny, 1, i, j + 1, 0);
            let v11 = node_index(nx, ny, 1, i + 1, j + 1, 0);
            let ghost before = out@;
            out.push(v00);
            out.push(v10);
            out.push(v11);
            out.push(v00);
            out.push(v11);
            out.push(v01);
            proof {
                lemma_flat_node(nx as int, ny as int, i as int, j as int);
                lemma_flat_node(nx as int, ny as int, i + 1, j as int);
                lemma_flat_node(nx as int, ny as int, i as int, j + 1);
                lemma_flat_node(nx as int, ny as int, i + 1, j + 1);
                assert(cell(j as int, i as int) == seq![v00, v10, v11, v00, v11, v01]);
                assert(out@ =~= before + cell(j as int, i as int));
                assert(row_cells(cell, j as int, (i + 1) as nat) == row_cells(cell, j as int, i as nat) + cell(
                    j as int,
                    i as int,
                ));
                assert(out@ =~= grid_cells(cell, j as nat, (nx - 1) as nat) + row_cells(cell, j as int, (i + 1) as nat));
            }
            i = i + 1;
        }
        assert(grid_cells(cell, (j + 1) as nat, (nx - 1) as nat) == grid_cells(cell, j as nat, (nx - 1) as nat)
            + row_cells(cell, j as int, (nx - 1) as nat));
        j = j + 1;
    }
    out
}

/// Every index of an `nx` by `ny` grid's triangles names one of its `nx * ny` points, when
/// that count fits the 32-bit indices.
pub proof fn lemma_surface_grid_in_range(nx: int, ny: int)
    requires
        nx >= 0,
        ny >= 0,
        nx * ny <= u32::MAX + 1,
    ensures
        forall|t: int|
            0 <= t < surface_grid(nx, ny).len() ==> (#[trigger] surface_grid(nx, ny)[t] as int) < nx * ny,
{
    if nx >= 2 && ny >= 2 {
        let cell = surface_cell(nx);
        let bound = nx * ny;
        assert(nx * ny * 1 == nx * ny) by (nonlinear_arith);
        assert forall|r: int, c: int, t: int|
            0 <= r < ny - 1 && 0 <= c < nx - 1 && 0 <= t < cell(r, c).len() implies #[trigger] cell(r, c)[t]
                < bound by {
            lemma_node_at_below(nx, ny, 1, c, r, 0, bound);
            lemma_node_at_below(nx, ny, 1, c + 1, r, 0, bound);
            lemma_node_at_below(nx, ny, 1, c, r + 1, 0, bound);
            lemma_node_at_below(nx, ny, 1, c + 1, r + 1, 0, bound);
            lemma_flat_node(nx, ny, c, r);
            lemma_flat_node(nx, ny, c + 1, r);
            lemma_flat_node(nx, ny, c, r + 1);
            lemma_flat_node(nx, ny, c + 1, r + 1);
        }
        lemma_grid_cells(cell, (ny - 1) as nat, (nx - 1) as nat, 6, bound);
    }
}

/// The first `n` of the dimensions `ds`, without those named `time` (when given).
pub open spec fn dims_without(ds: Seq<(String, u64)>, time: Option<Seq<char>>, n: nat) -> Seq<(String, u64)>
    decreases n,
{
    if n == 0 {
        Seq::empty()
    } else {
        dims_without(ds, time, (n - 1) as nat) + if time matches Some(t) && ds[n - 1].0@ == t {
            Seq::empty()
        } else {
            seq![ds[n - 1]]
        }
    }
}

/// A variable's spatial dimensions: those not named after the time coordinate.
pub open spec fn spatial_dims(v: NcVar, time: Option<Seq<char>>) -> Seq<(String, u64)> {
    dims_without(v.dims@, time, v.dims@.len())
}

/// Whether a variable has the time dimension.
pub open spec fn has_time_dim(v: NcVar, time: Option<Seq<char>>) -> bool {
    time matches Some(t) && exists|k: int| 0 <= k < v.dims@.len() && (#[trigger] v.dims@[k]).0@ == t
}

/// How one data variable becomes a dataset: which variable, whether its values are read at
/// the requested time step (it has the time dimension), where its x, y and z values come
/// from, and, for a 2-D variable shown as a surface, the surface triangles (a variable with
/// three or more spatial dimensions is a volume).
pub struct PlanSpec {
    pub var: usize,
    pub time_sliced: bool,
    pub axes: Sources,
    pub surface: Option<Seq<u32>>,
}

/// The dataset plan of variable `vi`: `None` when it has fewer than two spatial dimensions
/// (it is not shown); `Some(Err(()))` when it is a surface with no x or no y values (or more
/// points than memory can index).
pub open spec fn plan_for(vars: Seq<NcVar>, ax: SpatialAxes, time: Option<Seq<char>>, vi: usize) -> Option<
    Result<PlanSpec, ()>,
> {
    let v = vars[vi as int];
    let sd = spatial_dims(v, time);
    let st = resolve_axes(sd, ax);
    let ts = has_time_dim(v, time);
    if sd.len() >= 3 {
        Some(Ok(PlanSpec { var: vi, time_sliced: ts, axes: st, surface: None }))
    } else if sd.len() == 2 {
        let nx = source_len(st.0, ax);
        let ny = source_len(st.1, ax);
        if nx == 0 || ny == 0 || nx * ny > usize::MAX {
            Some(Err(()))
        } else {
            Some(Ok(PlanSpec { var: vi, time_sliced: ts, axes: st, surface: Some(surface_grid(nx as int, ny as int)) }))
        }
    } else {
        None
    }
}

/// The plans of the data variables `dv[0..n]`, in order; the first failing one fails all.
pub open spec fn plans_from(vars: Seq<NcVar>, ax: SpatialAxes, time: Option<Seq<char>>, dv: Seq<usize>, n: nat) -> Result<
    Seq<PlanSpec>,
    (),
>
    decreases n,
{
    if n == 0 {
        Ok(Seq::empty())
    } else {
        match plans_from(vars, ax, time, dv, (n - 1) as nat) {
            Err(e) => Err(e),
            Ok(ps) => match plan_for(vars, ax, time, dv[n - 1]) {
                None => Ok(ps),
                Some(Err(e)) => Err(e),
                Some(Ok(p)) => Ok(ps.push(p)),
            },
        }
    }
}

/// The datasets of a NetCDF file: one plan per shown data variable, in order; failing when
/// a surface has no grid or nothing is shown.
pub open spec fn netcdf_plans(vars: Seq<NcVar>, ax: SpatialAxes, time: Option<Seq<char>>) -> Result<Seq<PlanSpec>, ()> {
    let dv = data_vars_below(vars, vars.len());
    match plans_from(vars, ax, time, dv, dv.len()) {
        Ok(ps) => if ps.len() == 0 {
            Err(())
        } else {
            Ok(ps)
        },
        Err(e) => Err(e),
    }
}

/// How one data variable becomes a dataset (see [`PlanSpec`]).
pub struct DatasetPlan {
    pub var: usize,
    pub time_sliced: bool,
    pub x: AxisSource,
    pub y: AxisSource,
    pub z: AxisSource,
    pub surface: Option<Vec<u32>>,
}

/// A plan as plain values.
pub open spec fn plan_view(p: DatasetPlan) -> PlanSpec {
    PlanSpec {
        var: p.var,
        time_sliced: p.time_sliced,
        axes: (p.x, p.y, p.z),
        surface: match p.surface {
            Some(v) => Some(v@),
            None => None,
        },
    }
}

/// The time coordinate's name, as plain text.
pub open spec fn time_text(time: Option<String>) -> Option<Seq<char>> {
    match time {
        Some(t) => Some(t@),
        None => None,
    }
}

fn spatial_dims_of(v: &NcVar, time: &Option<String>) -> (r: (Vec<(String, u64)>, bool))
    ensures
        r.0@ == spatial_dims(*v, time_text(*time)),
        r.1 == has_time_dim(*v, time_text(*time)),
{
    let ghost tt = time_text(*time);
    let mut out: Vec<(String, u64)> = Vec::new();
    let mut found = false;
    let mut k: usize = 0;
    while k < v.dims.len()
        invariant
            k <= v.dims@.len(),
            tt == time_text(*time),
            out@ == dims_without(v.dims@, tt, k as nat),
            found == (tt matches Some(t) && exists|j: int| 0 <= j < k && (#[trigger] v.dims@[j]).0@ == t),
        decreases v.dims@.len() - k,
    {
        let is_time = match time {
            Some(t) => text_is(v.dims[k].0.as_str(), t.as_str()),
            None => false,
        };
        if is_time {
            found = true;
        } else {
            out.push((v.dims[k].0.clone(), v.dims[k].1));
        }
        proof {
            assert(out@ =~= dims_without(v.dims@, tt, (k + 1) as nat));
        }
        k = k + 1;
    }
    (out, found)
}

/// The datasets of a NetCDF file whose variables are `vars`, whose detected axes are `axes`
/// and whose time coordinate is named `time` (see [`netcdf_plans`]); fails with an
/// empty-dataset error when a surface has no grid or nothing is shown.
pub fn datasets_from_path(vars: &[NcVar], axes: &SpatialAxes, time: &Option<String>) -> (r: Result<Vec<DatasetPlan>, IoError>)
    ensures
        match netcdf_plans(vars@, *axes, time_text(*time)) {
            Ok(ps) => r matches Ok(v) && v@.map_values(|p: DatasetPlan| plan_view(p)) == ps,
            Err(_) => r matches Err(IoError::Parse(m)) && m@ == "empty dataset"@,
        },
{
    let ghost tt = time_text(*time);
    let dv = data_variables(vars);
    proof {
        lemma_data_vars_below(vars@, vars@.len());
    }
    let mut plans: Vec<DatasetPlan> = Vec::new();
    assert(plans@.map_values(|p: DatasetPlan| plan_view(p)) =~= Seq::<PlanSpec>::empty());
    let mut k: usize = 0;
    while k < dv.len()
        invariant
            k <= dv@.len(),
            dv@ == data_vars_below(vars@, vars@.len()),
            tt == time_text(*time),
            plans_from(vars@, *axes, tt, dv@, k as nat) == Ok::<Seq<PlanSpec>, ()>(
                plans@.map_values(|p: DatasetPlan| plan_view(p)),
            ),
            forall|j: int| 0 <= j < dv@.len() ==> #[trigger] dv@[j] < vars@.len(),
        decreases dv@.len() - k,
    {
        let vi = dv[k];
        let v = &vars[vi];
        let (sd, ts) = spatial_dims_of(v, time);
        let ghost before = plans@;
        if sd.len() >= 3 {
            let (x, y, z) = resolve_spatial_coords(sd.as_slice(), axes);
            plans.push(DatasetPlan { var: vi, time_sliced: ts, x, y, z, surface: None });
        } else if sd.len() == 2 {
            let (x, y, z) = resolve_spatial_coords(sd.as_slice(), axes);
            let grid = match (source_len_usize(x, axes), source_len_usize(y, axes)) {
                (Some(nx), Some(ny)) => {
                    if nx > 0 && ny > 0 {
                        match nx.checked_mul(ny) {
                            Some(_) => Some((nx, ny)),
                            None => None,
                        }
                    } else {
                        None
                    }
                },
                _ => None,
            };
            match grid {
                Some((nx, ny)) => {
                    let tris = surface_indices(nx, ny);
                    plans.push(DatasetPlan { var: vi, time_sliced: ts, x, y, z, surface: Some(tris) });
                },
                None => {
                    proof {
                        let (lx, ly) = (source_len(x, *axes), source_len(y, *axes));
                        if lx > usize::MAX && ly >= 1 {
                            assert(lx * ly > usize::MAX) by (nonlinear_arith)
                                requires
                                    lx > usize::MAX,
                                    ly >= 1,
                            ;
                        }
                        if ly > usize::MAX && lx >= 1 {
                            assert(lx * ly > usize::MAX) by (nonlinear_arith)
                                requires
                                    ly > usize::MAX,
                                    lx >= 1,
                            ;
                        }
                        assert(plan_for(vars@, *axes, tt, vi) == Some(Err::<PlanSpec, ()>(())));
                        lemma_plans_err(vars@, *axes, tt, dv@, (k + 1) as nat, dv@.len());
                    }
                    return Err(parse_error("empty dataset"));
                },
            }
        }
        proof {
            assert(plans@.map_values(|p: DatasetPlan| plan_view(p)) =~= match plan_for(vars@, *axes, tt, vi) {
                Some(Ok(p)) => before.map_values(|p: DatasetPlan| plan_view(p)).push(p),
                _ => before.map_values(|p: DatasetPlan| plan_view(p)),
            });
        }
        k = k + 1;
    }
    if plans.len() == 0 {
        assert(plans@.map_values(|p: DatasetPlan| plan_view(p)).len() == 0);
        return Err(parse_error("empty dataset"));
    }
    Ok(plans)
}

/// Data variable indices are variable indices.
pub proof fn lemma_data_vars_below(vars: Seq<NcVar>, k: nat)
    requires
        k <= vars.len(),
    ensures
        forall|j: int| 0 <= j < data_vars_below(vars, k).len() ==> #[trigger] data_vars_below(vars, k)[j] < k,
    decreases k,
{
    if k > 0 {
        lemma_data_vars_below(vars, (k - 1) as nat);
        let a = data_vars_below(vars, (k - 1) as nat);
        assert forall|j: int| 0 <= j < data_vars_below(vars, k).len() implies #[trigger] data_vars_below(vars, k)[j] < k by {
            if j < a.len() {
                assert(data_vars_below(vars, k)[j] == a[j]);
            }
        }
    }
}

/// Once a plan fails, the plans of all the variables fail.
pub proof fn lemma_plans_err(vars: Seq<NcVar>, ax: SpatialAxes, time: Option<Seq<char>>, dv: Seq<usize>, k: nat, n: nat)
    requires
        k <= n,
        plans_from(vars, ax, time, dv, k) is Err,
    ensures
        plans_from(vars, ax, time, dv, n) is Err,
    decreases n - k,
{
    if k < n {
        lemma_plans_err(vars, ax, time, dv, (k + 1) as nat, n);
    }
}

/// How many values a source gives, when that fits in a `usize`.
fn source_len_usize(s: AxisSource, ax: &SpatialAxes) -> (r: Option<usize>)
    ensures
        match r {
            Some(n) => n as nat == source_len(s, *ax),
            None => source_len(s, *ax) > usize::MAX,
        },
{
    match s {
        AxisSource::Coordinate(a) => {
            let info = if a == 0 {
                &ax.x
            } else if a == 1 {
                &ax.y
            } else if a == 2 {
                &ax.z
            } else {
                return Some(0);
            };
            match info {
                Some(i) => Some(i.len),
                None => Some(0),
            }
        },
        AxisSource::Indices(n) => {
            if n <= usize::MAX as u64 {
                Some(n as usize)
            } else {
                None
            }
        },
        AxisSource::Missing => Some(0),
    }
}

/// The timestep selectors of a file with `time_len` time values: `"0"`, `"1"`, ... one per
/// value; a file without a time coordinate has one step and no selector.
pub fn read_series(time_len: Option<usize>) -> (r: Vec<Option<String>>)
    ensures
        match time_len {
            Some(n) => r@.len() == n && forall|i: int| 0 <= i < n ==> ((#[trigger] r@[i]) matches Some(s) && s@
                == crate::text::decimal(i as nat)),
            None => r@.len() == 1 && r@[0] is None,
        },
{
    let mut r: Vec<Option<String>> = Vec::new();
    match time_len {
        Some(n) => {
            let mut i: usize = 0;
            while i < n
                invariant
                    i <= n,
                    r@.len() == i,
                    forall|j: int| 0 <= j < i ==> ((#[trigger] r@[j]) matches Some(s) && s@ == crate::text::decimal(j as nat)),
                decreases n - i,
            {
                r.push(Some(crate::text::decimal_string(i)));
                i = i + 1;
            }
        },
        None => {
            r.push(None);
        },
    }
    r
}

} // verus!
