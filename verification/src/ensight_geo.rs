//! EnSight Gold geometry and variable files, in their ASCII and C-binary forms.
//!
//! Coordinates and variable values stay as the file holds them: number texts in an ASCII
//! file, the bits of little-endian `f32` values in a binary one.
use vstd::prelude::*;

use crate::cgns::{grid_nodes, zero_based, zero_based_all};
use crate::ensight::{
    block_surface, copy_chars, element_nodes, element_triangles, is_element_type, le_i32, le_u32, lossy_text,
    nodes_per_element, read_i32, read_i32_array, read_record_string, structured_surface_indices, triangulate_ensight,
    trim_nuls,
};
use crate::error::{parse_error, IoError};
use crate::tecplot::{id_tokens, ids_of, number_tokens, numbers_of, tables, texts};
use crate::text::{
    chars_of, parse_usize, range_is, starts, starts_with, string_of, trim, trim_bounds, usize_value, word_ranges,
    words,
};

verus! {

/// Line `p` of `ls`, or an empty line past the end (what `lines.next().unwrap_or("")` reads).
pub open spec fn line_at(ls: Seq<Seq<char>>, p: int) -> Seq<char> {
    if 0 <= p < ls.len() {
        ls[p]
    } else {
        Seq::empty()
    }
}

/// The position after line `p`; the end stays the end.
pub open spec fn next_line(ls: Seq<Seq<char>>, p: int) -> int {
    if p < ls.len() {
        p + 1
    } else {
        ls.len() as int
    }
}

/// The position `n` lines after `p`, at most the end.
pub open spec fn skip_lines(ls: Seq<Seq<char>>, p: int, n: int) -> int {
    if p + n < ls.len() {
        p + n
    } else {
        ls.len() as int
    }
}

/// The count on line `p`: its trimmed text read as a `usize`; a missing line reads as `0`.
pub open spec fn count_line(ls: Seq<Seq<char>>, p: int) -> Option<usize> {
    if 0 <= p < ls.len() {
        usize_value(trim(ls[p]))
    } else {
        Some(0)
    }
}

/// The error of numeric data that ends before the values it should hold.
pub open spec fn numeric_end_message() -> Seq<char> {
    "EnSight parse error: unexpected end of numeric data"@
}

/// The number texts the reader collects from line `p` on until it holds `n` (`acc` already
/// collected): each line's numbers in order, a line's surplus left unread; with the position
/// after the last line read. `None` when the lines end first.
pub open spec fn floats_from(ls: Seq<Seq<char>>, p: int, n: nat, acc: Seq<Seq<char>>) -> Option<
    (Seq<Seq<char>>, int),
>
    decreases ls.len() - p,
{
    if acc.len() >= n {
        Some((acc, p))
    } else if p < 0 || p >= ls.len() {
        None
    } else {
        let ns = numbers_of(ls[p]);
        let need = (n - acc.len()) as nat;
        floats_from(ls, p + 1, n, acc + if ns.len() <= need { ns } else { ns.take(need as int) })
    }
}

pub proof fn lemma_floats_from(ls: Seq<Seq<char>>, p: int, n: nat, acc: Seq<Seq<char>>)
    requires
        0 <= p <= ls.len(),
        acc.len() <= n,
    ensures
        floats_from(ls, p, n, acc) matches Some((v, q)) ==> p <= q <= ls.len() && v.len() == n
            && v.subrange(0, acc.len() as int) == acc,
    decreases ls.len() - p,
{
    if acc.len() < n && p < ls.len() {
        let ns = numbers_of(ls[p]);
        let need = (n - acc.len()) as nat;
        let acc2 = acc + if ns.len() <= need { ns } else { ns.take(need as int) };
        lemma_floats_from(ls, p + 1, n, acc2);
        if let Some((v, q)) = floats_from(ls, p, n, acc) {
            assert(v.subrange(0, acc2.len() as int).subrange(0, acc.len() as int) =~= v.subrange(
                0,
                acc.len() as int,
            ));
            assert(acc2.subrange(0, acc.len() as int) =~= acc);
        }
    } else if acc.len() >= n {
        assert(acc.subrange(0, acc.len() as int) =~= acc);
    }
}

/// The count on line `p` of `lines` (see [`count_line`]).
fn count_at(lines: &[Vec<char>], p: usize) -> (r: Option<usize>)
    ensures
        r == count_line(texts(lines@), p as int),
{
    if p < lines.len() {
        let (a, b) = trim_bounds(lines[p].as_slice());
        parse_usize(lines[p].as_slice(), a, b)
    } else {
        Some(0)
    }
}

/// Reads `n` number texts from line `p` on (see [`floats_from`]), with the position after
/// them. Fails when the lines end first.
pub fn read_n_floats(lines: &[Vec<char>], p: usize, n: usize) -> (r: Result<(Vec<Vec<char>>, usize), IoError>)
    requires
        p <= lines@.len(),
    ensures
        match floats_from(texts(lines@), p as int, n as nat, Seq::empty()) {
            Some((v, q)) => r matches Ok((w, e)) && texts(w@) == v && e == q,
            None => r matches Err(IoError::Parse(m)) && m@ == numeric_end_message(),
        },
{
    let ghost ls = texts(lines@);
    let mut out: Vec<Vec<char>> = Vec::new();
    let mut q = p;
    proof {
        assert(texts(out@) =~= Seq::<Seq<char>>::empty());
    }
    while out.len() < n
        invariant
            ls == texts(lines@),
            p <= q <= lines@.len(),
            out@.len() <= n,
            floats_from(ls, p as int, n as nat, Seq::empty()) == floats_from(ls, q as int, n as nat, texts(out@)),
        decreases lines@.len() - q,
    {
        if q >= lines.len() {
            return Err(parse_error("EnSight parse error: unexpected end of numeric data"));
        }
        let ns = number_tokens(lines[q].as_slice());
        let ghost before = texts(out@);
        let need = n - out.len();
        let mut k: usize = 0;
        while k < ns.len() && k < need
            invariant
                k <= ns@.len(),
                k <= need,
                need == n - before.len(),
                texts(out@) == before + texts(ns@).take(k as int),
            decreases ns@.len() - k,
        {
            let ghost prev = out@;
            out.push(copy_chars(ns[k].as_slice()));
            proof {
                assert(texts(out@) =~= texts(prev).push(ns@[k as int]@));
                assert(texts(ns@).take(k + 1) =~= texts(ns@).take(k as int).push(ns@[k as int]@));
                assert(texts(out@) =~= before + texts(ns@).take(k + 1));
            }
            k = k + 1;
        }
        proof {
            let nv = numbers_of(ls[q as int]);
            assert(nv == texts(ns@));
            if nv.len() <= need {
                assert(texts(ns@).take(k as int) =~= nv);
            }
        }
        q = q + 1;
    }
    Ok((out, q))
}

/// A point as an ASCII file writes it: the texts of its three coordinates.
pub type TextPoint = (Vec<char>, Vec<char>, Vec<char>);

/// The coordinate texts of points.
pub open spec fn text_points(v: Seq<TextPoint>) -> Seq<(Seq<char>, Seq<char>, Seq<char>)> {
    v.map_values(|t: TextPoint| (t.0@, t.1@, t.2@))
}

/// The points whose coordinates are `xs`, `ys` and `zs`, taken in step.
pub open spec fn zip3<C>(xs: Seq<C>, ys: Seq<C>, zs: Seq<C>) -> Seq<(C, C, C)> {
    Seq::new(xs.len(), |i: int| (xs[i], ys[i], zs[i]))
}

/// Three runs of `n` number texts from line `p` on (all x values, all y values, all z
/// values) as points, with the position after them.
pub open spec fn three_runs(ls: Seq<Seq<char>>, p: int, n: nat) -> Option<
    (Seq<(Seq<char>, Seq<char>, Seq<char>)>, int),
> {
    match floats_from(ls, p, n, Seq::empty()) {
        None => None,
        Some((xs, p1)) => match floats_from(ls, p1, n, Seq::empty()) {
            None => None,
            Some((ys, p2)) => match floats_from(ls, p2, n, Seq::empty()) {
                None => None,
                Some((zs, p3)) => Some((zip3(xs, ys, zs), p3)),
            },
        },
    }
}

pub proof fn lemma_three_runs(ls: Seq<Seq<char>>, p: int, n: nat)
    requires
        0 <= p <= ls.len(),
    ensures
        three_runs(ls, p, n) matches Some((v, q)) ==> p <= q <= ls.len() && v.len() == n,
{
    lemma_floats_from(ls, p, n, Seq::empty());
    if let Some((xs, p1)) = floats_from(ls, p, n, Seq::empty()) {
        lemma_floats_from(ls, p1, n, Seq::empty());
        if let Some((ys, p2)) = floats_from(ls, p1, n, Seq::empty()) {
            lemma_floats_from(ls, p2, n, Seq::empty());
        }
    }
}

/// The points of a `coordinates` section whose count line is line `p`, and the position
/// after them.
pub open spec fn ascii_coordinates(ls: Seq<Seq<char>>, p: int) -> Option<
    (Seq<(Seq<char>, Seq<char>, Seq<char>)>, int),
> {
    match count_line(ls, p) {
        None => None,
        Some(n) => three_runs(ls, next_line(ls, p), n as nat),
    }
}

/// The error of a `coordinates` section whose count line is line `p` and which does not read:
/// a count that is not a number, or values that run out.
pub open spec fn coordinates_error(ls: Seq<Seq<char>>, p: int) -> Seq<char> {
    if count_line(ls, p) is None {
        "EnSight parse error: Invalid coordinate count"@
    } else {
        numeric_end_message()
    }
}

/// Reads three runs of `n` number texts from line `p` on (see [`three_runs`]).
fn read_three_runs(lines: &[Vec<char>], p: usize, n: usize) -> (r: Result<(Vec<TextPoint>, usize), IoError>)
    requires
        p <= lines@.len(),
    ensures
        match three_runs(texts(lines@), p as int, n as nat) {
            Some((v, q)) => r matches Ok((w, e)) && text_points(w@) == v && e == q,
            None => r matches Err(IoError::Parse(m)) && m@ == numeric_end_message(),
        },
{
    let ghost ls = texts(lines@);
    proof {
        lemma_floats_from(ls, p as int, n as nat, Seq::empty());
    }
    let (xs, p1) = match read_n_floats(lines, p, n) {
        Ok(x) => x,
        Err(e) => {
            return Err(e);
        },
    };
    proof {
        lemma_floats_from(ls, p1 as int, n as nat, Seq::empty());
    }
    let (ys, p2) = match read_n_floats(lines, p1, n) {
        Ok(x) => x,
        Err(e) => {
            return Err(e);
        },
    };
    proof {
        lemma_floats_from(ls, p2 as int, n as nat, Seq::empty());
    }
    let (zs, p3) = match read_n_floats(lines, p2, n) {
        Ok(x) => x,
        Err(e) => {
            return Err(e);
        },
    };
    let mut out: Vec<TextPoint> = Vec::new();
    let mut i: usize = 0;
    while i < n
        invariant
            i <= n,
            xs@.len() == n && ys@.len() == n && zs@.len() == n,
            text_points(out@) == zip3(texts(xs@), texts(ys@), texts(zs@)).take(i as int),
        decreases n - i,
    {
        let ghost prev = out@;
        out.push((copy_chars(xs[i].as_slice()), copy_chars(ys[i].as_slice()), copy_chars(zs[i].as_slice())));
        proof {
            assert(text_points(out@) =~= text_points(prev).push((xs@[i as int]@, ys@[i as int]@, zs@[i as int]@)));
            assert(zip3(texts(xs@), texts(ys@), texts(zs@)).take(i + 1) =~= zip3(texts(xs@), texts(ys@), texts(zs@)).take(
                i as int,
            ).push((xs@[i as int]@, ys@[i as int]@, zs@[i as int]@)));
        }
        i = i + 1;
    }
    assert(zip3(texts(xs@), texts(ys@), texts(zs@)).take(n as int) =~= zip3(texts(xs@), texts(ys@), texts(zs@)));
    Ok((out, p3))
}

/// Reads a `coordinates` section whose count line is line `p` (see [`ascii_coordinates`]).
/// Fails when the count is not a number or the values run out.
pub fn read_ascii_coordinates(lines: &[Vec<char>], p: usize) -> (r: Result<(Vec<TextPoint>, usize), IoError>)
    requires
        p <= lines@.len(),
    ensures
        match ascii_coordinates(texts(lines@), p as int) {
            Some((v, q)) => r matches Ok((w, e)) && text_points(w@) == v && e == q,
            None => r matches Err(IoError::Parse(m)) && m@ == coordinates_error(texts(lines@), p as int),
        },
{
    let n = match count_at(lines, p) {
        Some(n) => n,
        None => {
            return Err(parse_error("EnSight parse error: Invalid coordinate count"));
        },
    };
    let p1 = if p < lines.len() {
        p + 1
    } else {
        p
    };
    read_three_runs(lines, p1, n)
}

/// The `usize` values among the first `n` of `ws`, in order.
pub open spec fn usize_words(ws: Seq<Seq<char>>, n: nat) -> Seq<usize>
    decreases n,
{
    if n == 0 {
        Seq::empty()
    } else {
        usize_words(ws, (n - 1) as nat) + match usize_value(ws[n - 1]) {
            Some(v) => seq![v],
            None => Seq::empty(),
        }
    }
}

/// The dimensions of a `block` section on line `p`: the first three of its words that read
/// as `usize`.
pub open spec fn block_dims(ls: Seq<Seq<char>>, p: int) -> Option<(usize, usize, usize)> {
    let ws = words(line_at(ls, p));
    let ds = usize_words(ws, ws.len());
    if ds.len() < 3 {
        None
    } else {
        Some((ds[0], ds[1], ds[2]))
    }
}

/// Reads the dimensions of a `block` section on line `p` (see [`block_dims`]), with the
/// position after that line. Fails when the line holds fewer than three.
pub fn read_ascii_block_dims(lines: &[Vec<char>], p: usize) -> (r: Result<((usize, usize, usize), usize), IoError>)
    requires
        p <= lines@.len(),
    ensures
        match block_dims(texts(lines@), p as int) {
            Some(d) => r matches Ok((e, q)) && e == d && q == next_line(texts(lines@), p as int),
            None => r matches Err(IoError::Parse(m)) && m@ == "EnSight parse error: Invalid structured block dimensions"@,
        },
{
    let ghost ls = texts(lines@);
    let empty: Vec<char> = Vec::new();
    let l: &[char] = if p < lines.len() {
        lines[p].as_slice()
    } else {
        empty.as_slice()
    };
    assert(l@ == line_at(ls, p as int));
    let ranges = word_ranges(l);
    let ghost ws = words(l@);
    let mut ds: Vec<usize> = Vec::new();
    let mut k: usize = 0;
    while k < ranges.len()
        invariant
            k <= ranges@.len(),
            ws == words(l@),
            crate::text::ranges_match(l@, ranges@, ws),
            ds@ == usize_words(ws, k as nat),
        decreases ranges@.len() - k,
    {
        let (a, b) = ranges[k];
        match parse_usize(l, a, b) {
            Some(v) => {
                ds.push(v);
            },
            None => {},
        }
        assert(ds@ =~= usize_words(ws, (k + 1) as nat));
        k = k + 1;
    }
    if ds.len() < 3 {
        return Err(parse_error("EnSight parse error: Invalid structured block dimensions"));
    }
    let q = if p < lines.len() {
        p + 1
    } else {
        p
    };
    Ok(((ds[0], ds[1], ds[2]), q))
}

/// The point count of a block of dimensions `d`, as the reader forms it by checked products
/// (`d.0 * d.1`, then that times `d.2`); `None` when a product overflows, and also when the
/// surface grid (each dimension taken as at least 1) has more than `usize::MAX` points: a
/// dimension is 0 and the other two span more points than memory could hold triangles for.
pub open spec fn block_points(d: (usize, usize, usize)) -> Option<usize> {
    if d.0 * d.1 > usize::MAX || d.0 * d.1 * d.2 > usize::MAX || grid_nodes(d.0 as int, d.1 as int, d.2 as int)
        > usize::MAX {
        None
    } else {
        Some((d.0 * d.1 * d.2) as usize)
    }
}

/// The point count of a block (see [`block_points`]).
pub fn block_point_count(d: (usize, usize, usize)) -> (r: Option<usize>)
    ensures
        r == block_points(d),
{
    let a = match d.0.checked_mul(d.1) {
        Some(a) => a,
        None => {
            return None;
        },
    };
    let n = match a.checked_mul(d.2) {
        Some(n) => n,
        None => {
            return None;
        },
    };
    let l0: usize = if d.0 == 0 { 1 } else { d.0 };
    let l1: usize = if d.1 == 0 { 1 } else { d.1 };
    let l2: usize = if d.2 == 0 { 1 } else { d.2 };
    let b = match l0.checked_mul(l1) {
        Some(b) => b,
        None => {
            proof {
                assert(l0 * l1 * l2 >= l0 * l1) by (nonlinear_arith)
                    requires
                        l2 >= 1,
                        l0 >= 1,
                        l1 >= 1,
                ;
            }
            return None;
        },
    };
    match b.checked_mul(l2) {
        Some(_) => Some(n),
        None => None,
    }
}

/// The points of a block of dimensions `d` whose values start on line `p`, and the position
/// after them.
pub open spec fn ascii_block_points(ls: Seq<Seq<char>>, p: int, d: (usize, usize, usize)) -> Option<
    (Seq<(Seq<char>, Seq<char>, Seq<char>)>, int),
> {
    match block_points(d) {
        None => None,
        Some(n) => three_runs(ls, p, n as nat),
    }
}

/// The error of the points of a block of dimensions `d` that do not read: a point count that
/// overflows, or values that run out.
pub open spec fn block_points_error(d: (usize, usize, usize)) -> Seq<char> {
    if block_points(d) is None {
        "EnSight parse error: Structured block point count overflow"@
    } else {
        numeric_end_message()
    }
}

/// Reads the points of a block of dimensions `d` from line `p` on (see
/// [`ascii_block_points`]). Fails when the point count overflows or the values run out.
pub fn read_ascii_block_coordinates(lines: &[Vec<char>], p: usize, d: (usize, usize, usize)) -> (r: Result<
    (Vec<TextPoint>, usize),
    IoError,
>)
    requires
        p <= lines@.len(),
    ensures
        match ascii_block_points(texts(lines@), p as int, d) {
            Some((v, q)) => r matches Ok((w, e)) && text_points(w@) == v && e == q,
            None => r matches Err(IoError::Parse(m)) && m@ == block_points_error(d),
        },
{
    match block_point_count(d) {
        Some(n) => read_three_runs(lines, p, n),
        None => Err(parse_error("EnSight parse error: Structured block point count overflow")),
    }
}

/// The triangles one element line `l` of type `t` gives: its 0-based node numbers, when it
/// has at least `np` of them, through the first `np`.
pub open spec fn line_triangles(l: Seq<char>, t: Seq<char>, np: nat) -> Seq<u32> {
    let ids = ids_of(l);
    if ids.len() >= np {
        element_triangles(t, ids.take(np as int))
    } else {
        Seq::empty()
    }
}

/// The triangles of the `k` element lines from line `p` on.
pub open spec fn element_lines(ls: Seq<Seq<char>>, p: int, k: nat, t: Seq<char>, np: nat) -> Seq<u32>
    decreases k,
{
    if k == 0 {
        Seq::empty()
    } else {
        element_lines(ls, p, (k - 1) as nat, t, np) + line_triangles(line_at(ls, p + k - 1), t, np)
    }
}

proof fn lemma_element_lines_past_end(ls: Seq<Seq<char>>, p: int, j: nat, k: nat, t: Seq<char>, np: nat)
    requires
        p + j >= ls.len(),
        j <= k,
        np > 0,
    ensures
        element_lines(ls, p, k, t, np) == element_lines(ls, p, j, t, np),
    decreases k,
{
    if k > j {
        lemma_element_lines_past_end(ls, p, j, (k - 1) as nat, t, np);
        assert(ids_of(line_at(ls, p + k - 1)) =~= Seq::<u32>::empty()) by {
            assert(words(Seq::<char>::empty()) =~= Seq::<Seq<char>>::empty()) by {
                reveal_with_fuel(crate::text::words_from, 2);
            }
        }
        assert(element_lines(ls, p, k, t, np) =~= element_lines(ls, p, (k - 1) as nat, t, np));
    }
}

/// The node count of element type `t` (0 for the variable and unknown types).
pub open spec fn type_nodes(t: Seq<char>) -> nat {
    match element_nodes(t) {
        Some(k) => k,
        None => 0,
    }
}

/// An element section of type `t` whose count line is line `p`: its triangles, and the
/// position after its element lines (which are skipped for the variable types).
pub open spec fn ascii_elements(ls: Seq<Seq<char>>, p: int, t: Seq<char>) -> Option<(Seq<u32>, int)> {
    match count_line(ls, p) {
        None => None,
        Some(n) => {
            let p1 = next_line(ls, p);
            Some(
                (
                    if type_nodes(t) == 0 {
                        Seq::empty()
                    } else {
                        element_lines(ls, p1, n as nat, t, type_nodes(t))
                    },
                    skip_lines(ls, p1, n as int),
                ),
            )
        },
    }
}

/// Reads an element section of type `elem_type` whose count line is line `p`, appending its
/// triangles to `indices` (see [`ascii_elements`]); returns the position after it. Fails
/// when the count is not a number.
pub fn read_ascii_elements(lines: &[Vec<char>], p: usize, elem_type: &str, indices: &mut Vec<u32>) -> (r: Result<
    usize,
    IoError,
>)
    requires
        p <= lines@.len(),
    ensures
        match ascii_elements(texts(lines@), p as int, elem_type@) {
            Some((tris, q)) => r == Ok::<usize, IoError>(q as usize) && final(indices)@ == old(indices)@ + tris,
            None => r matches Err(IoError::Parse(m)) && m@ == "EnSight parse error: Invalid element count"@
                && final(indices)@ == old(indices)@,
        },
{
    let ghost ls = texts(lines@);
    let n = match count_at(lines, p) {
        Some(n) => n,
        None => {
            return Err(parse_error("EnSight parse error: Invalid element count"));
        },
    };
    let p1 = if p < lines.len() {
        p + 1
    } else {
        p
    };
    let len = lines.len();
    let after = if n < len - p1 {
        p1 + n
    } else {
        len
    };
    let np = nodes_per_element(elem_type);
    if np == 0 {
        assert(old(indices)@ + Seq::<u32>::empty() =~= old(indices)@);
        return Ok(after);
    }
    let ghost start = indices@;
    let mut k: usize = 0;
    while k < n
        invariant
            ls == texts(lines@),
            len == lines@.len(),
            p1 <= len,
            k <= n,
            np == type_nodes(elem_type@),
            np > 0,
            indices@ == start + element_lines(ls, p1 as int, k as nat, elem_type@, np as nat),
        ensures
            indices@ == start + element_lines(ls, p1 as int, n as nat, elem_type@, np as nat),
        decreases n - k,
    {
        if k >= len - p1 {
            proof {
                lemma_element_lines_past_end(ls, p1 as int, k as nat, n as nat, elem_type@, np as nat);
            }
            break;
        }
        let ids = id_tokens(lines[p1 + k].as_slice());
        let ghost before = indices@;
        if ids.len() >= np {
            let mut local: Vec<u32> = Vec::new();
            let mut j: usize = 0;
            while j < np
                invariant
                    j <= np <= ids@.len(),
                    local@ == ids@.take(j as int),
                decreases np - j,
            {
                local.push(ids[j]);
                assert(ids@.take(j + 1) =~= ids@.take(j as int).push(ids@[j as int]));
                j = j + 1;
            }
            proof {
                crate::ensight::lemma_shape_nodes(elem_type@);
            }
            triangulate_ensight(elem_type, local.as_slice(), indices);
        } else {
            assert(before + Seq::<u32>::empty() =~= before);
        }
        proof {
            assert(line_at(ls, p1 + k) == lines@[p1 + k]@);
            assert(indices@ =~= start + element_lines(ls, p1 as int, (k + 1) as nat, elem_type@, np as nat));
        }
        k = k + 1;
    }
    Ok(after)
}

/// What the decoder makes of one part of a geometry file: its name, its points, and the
/// triangle indices of its surface.
pub struct PartSpec<C> {
    pub name: Seq<char>,
    pub positions: Seq<(C, C, C)>,
    pub indices: Seq<u32>,
}

/// One part of a geometry file: its name, its points, and the triangle indices of its
/// surface.
pub struct GeoPart<C> {
    pub name: String,
    pub positions: Vec<(C, C, C)>,
    pub indices: Vec<u32>,
}

/// An ASCII part as the decoder describes it.
pub open spec fn text_part(g: GeoPart<Vec<char>>) -> PartSpec<Seq<char>> {
    PartSpec { name: g.name@, positions: text_points(g.positions@), indices: g.indices@ }
}

/// ASCII parts as the decoder describes them.
pub open spec fn text_parts(v: Seq<GeoPart<Vec<char>>>) -> Seq<PartSpec<Seq<char>>> {
    v.map_values(|g: GeoPart<Vec<char>>| text_part(g))
}

/// The parts gathered so far, with `g` added when it has both points and triangles.
pub open spec fn keep<C>(acc: Seq<PartSpec<C>>, g: PartSpec<C>) -> Seq<PartSpec<C>> {
    if g.positions.len() > 0 && g.indices.len() > 0 {
        acc.push(g)
    } else {
        acc
    }
}

/// The points and triangles a part section gathers from line `p` on, starting from `pts`
/// and `idx`, up to the next `part` line or the end, with the position where it stops: a
/// `coordinates` or `block` section replaces the points (a block also replaces the
/// triangles with its surface), an element section appends its triangles, any other line is
/// passed over. `None` when a section is malformed.
pub open spec fn ascii_part_body(
    ls: Seq<Seq<char>>,
    p: int,
    pts: Seq<(Seq<char>, Seq<char>, Seq<char>)>,
    idx: Seq<u32>,
) -> Option<(Seq<(Seq<char>, Seq<char>, Seq<char>)>, Seq<u32>, int)>
    decreases ls.len() - p,
{
    if p < 0 || p >= ls.len() {
        Some((pts, idx, p))
    } else {
        let t = trim(ls[p]);
        if t == "coordinates"@ {
            match ascii_coordinates(ls, p + 1) {
                None => None,
                Some((ps, q)) => {
                    proof {
                        lemma_three_runs(ls, next_line(ls, p + 1), count_line(ls, p + 1)->0 as nat);
                    }
                    ascii_part_body(ls, q, ps, idx)
                },
            }
        } else if t == "block"@ {
            match block_dims(ls, p + 1) {
                None => None,
                Some(d) => match ascii_block_points(ls, next_line(ls, p + 1), d) {
                    None => None,
                    Some((ps, q)) => {
                        proof {
                            lemma_three_runs(ls, next_line(ls, p + 1), block_points(d)->0 as nat);
                        }
                        ascii_part_body(ls, q, ps, block_surface(d.0 as int, d.1 as int, d.2 as int))
                    },
                },
            }
        } else if t == "part"@ {
            Some((pts, idx, p))
        } else if element_nodes(t) is Some {
            match ascii_elements(ls, p + 1, t) {
                None => None,
                Some((tris, q)) => ascii_part_body(ls, q, pts, idx + tris),
            }
        } else {
            ascii_part_body(ls, p + 1, pts, idx)
        }
    }
}

pub proof fn lemma_ascii_part_body(
    ls: Seq<Seq<char>>,
    p: int,
    pts: Seq<(Seq<char>, Seq<char>, Seq<char>)>,
    idx: Seq<u32>,
)
    requires
        0 <= p <= ls.len(),
    ensures
        ascii_part_body(ls, p, pts, idx) matches Some((a, b, q)) ==> p <= q <= ls.len(),
    decreases ls.len() - p,
{
    if p < ls.len() {
        let t = trim(ls[p]);
        if t == "coordinates"@ {
            if let Some((ps, q)) = ascii_coordinates(ls, p + 1) {
                lemma_three_runs(ls, next_line(ls, p + 1), count_line(ls, p + 1)->0 as nat);
                lemma_ascii_part_body(ls, q, ps, idx);
            }
        } else if t == "block"@ {
            if let Some(d) = block_dims(ls, p + 1) {
                if let Some((ps, q)) = ascii_block_points(ls, next_line(ls, p + 1), d) {
                    lemma_three_runs(ls, next_line(ls, p + 1), block_points(d)->0 as nat);
                    lemma_ascii_part_body(ls, q, ps, block_surface(d.0 as int, d.1 as int, d.2 as int));
                }
            }
        } else if t == "part"@ {
        } else if element_nodes(t) is Some {
            if let Some((tris, q)) = ascii_elements(ls, p + 1, t) {
                lemma_ascii_part_body(ls, q, pts, idx + tris);
            }
        } else {
            lemma_ascii_part_body(ls, p + 1, pts, idx);
        }
    }
}

/// The error of a part section from line `p` on that does not read (see
/// [`ascii_part_body`]): that of its first malformed section.
pub open spec fn ascii_part_body_error(
    ls: Seq<Seq<char>>,
    p: int,
    pts: Seq<(Seq<char>, Seq<char>, Seq<char>)>,
    idx: Seq<u32>,
) -> Seq<char>
    decreases ls.len() - p,
{
    if p < 0 || p >= ls.len() {
        Seq::empty()
    } else {
        let t = trim(ls[p]);
        if t == "coordinates"@ {
            match ascii_coordinates(ls, p + 1) {
                None => coordinates_error(ls, p + 1),
                Some((ps, q)) => {
                    proof {
                        lemma_three_runs(ls, next_line(ls, p + 1), count_line(ls, p + 1)->0 as nat);
                    }
                    ascii_part_body_error(ls, q, ps, idx)
                },
            }
        } else if t == "block"@ {
            match block_dims(ls, p + 1) {
                None => "EnSight parse error: Invalid structured block dimensions"@,
                Some(d) => match ascii_block_points(ls, next_line(ls, p + 1), d) {
                    None => block_points_error(d),
                    Some((ps, q)) => {
                        proof {
                            lemma_three_runs(ls, next_line(ls, p + 1), block_points(d)->0 as nat);
                        }
                        ascii_part_body_error(ls, q, ps, block_surface(d.0 as int, d.1 as int, d.2 as int))
                    },
                },
            }
        } else if t == "part"@ {
            Seq::empty()
        } else if element_nodes(t) is Some {
            match ascii_elements(ls, p + 1, t) {
                None => "EnSight parse error: Invalid element count"@,
                Some((tris, q)) => ascii_part_body_error(ls, q, pts, idx + tris),
            }
        } else {
            ascii_part_body_error(ls, p + 1, pts, idx)
        }
    }
}

/// The error of a part whose section starts on line `p` and does not read (see
/// [`ascii_part`]).
pub open spec fn ascii_part_error(ls: Seq<Seq<char>>, p: int) -> Seq<char> {
    ascii_part_body_error(ls, next_line(ls, next_line(ls, p)), Seq::empty(), Seq::empty())
}

/// A part whose section starts on line `p` (the line after `part`): its number line, its
/// name line (trimmed), then its body; with the position where it stops.
pub open spec fn ascii_part(ls: Seq<Seq<char>>, p: int) -> Option<(PartSpec<Seq<char>>, int)> {
    let p1 = next_line(ls, p);
    let p2 = next_line(ls, p1);
    match ascii_part_body(ls, p2, Seq::empty(), Seq::empty()) {
        None => None,
        Some((pts, idx, q)) => Some((PartSpec { name: trim(line_at(ls, p1)), positions: pts, indices: idx }, q)),
    }
}

/// Reads the part whose section starts on line `p` (see [`ascii_part`]). Fails when one of
/// its sections is malformed.
pub fn read_ascii_part(lines: &[Vec<char>], p: usize) -> (r: Result<(GeoPart<Vec<char>>, usize), IoError>)
    requires
        p <= lines@.len(),
    ensures
        match ascii_part(texts(lines@), p as int) {
            Some((g, q)) => r matches Ok((h, e)) && text_part(h) == g && e == q,
            None => r matches Err(IoError::Parse(m)) && m@ == ascii_part_error(texts(lines@), p as int),
        },
{
    let ghost ls = texts(lines@);
    proof {
        reveal_strlit("coordinates");
        reveal_strlit("block");
        reveal_strlit("part");
        assert("coordinates"@.len() == 11 && "block"@.len() == 5 && "part"@.len() == 4);
    }
    let len = lines.len();
    let p1 = if p < len { p + 1 } else { p };
    let name = if p1 < len {
        let (a, b) = trim_bounds(lines[p1].as_slice());
        string_of(lines[p1].as_slice(), a, b)
    } else {
        String::new()
    };
    assert(name@ == trim(line_at(ls, p1 as int))) by {
        if p1 >= len {
            assert(trim(Seq::<char>::empty()) =~= Seq::<char>::empty()) by {
                reveal_with_fuel(crate::text::trim_start, 2);
                reveal_with_fuel(crate::text::trim_end, 2);
            }
        }
    }
    let p2 = if p1 < len { p1 + 1 } else { p1 };
    let mut positions: Vec<TextPoint> = Vec::new();
    let mut indices: Vec<u32> = Vec::new();
    let mut q = p2;
    proof {
        assert(text_points(positions@) =~= Seq::<(Seq<char>, Seq<char>, Seq<char>)>::empty());
    }
    while q < len
        invariant
            ls == texts(lines@),
            len == lines@.len(),
            p2 <= q <= len,
            p2 == next_line(ls, next_line(ls, p as int)),
            name@ == trim(line_at(ls, next_line(ls, p as int))),
            "coordinates"@.len() == 11 && "block"@.len() == 5 && "part"@.len() == 4,
            ascii_part_body(ls, p2 as int, Seq::empty(), Seq::empty()) == ascii_part_body(
                ls,
                q as int,
                text_points(positions@),
                indices@,
            ),
            ascii_part_body_error(ls, p2 as int, Seq::empty(), Seq::empty()) == ascii_part_body_error(
                ls,
                q as int,
                text_points(positions@),
                indices@,
            ),
        ensures
            ascii_part_body(ls, p2 as int, Seq::empty(), Seq::empty()) == Some(
                (text_points(positions@), indices@, q as int),
            ),
        decreases len - q,
    {
        let l = lines[q].as_slice();
        let (a, b) = trim_bounds(l);
        assert(l@ == ls[q as int]);
        if range_is(l, a, b, "coordinates") {
            proof {
                lemma_three_runs(ls, next_line(ls, q + 1), count_line(ls, q + 1)->0 as nat);
            }
            match read_ascii_coordinates(lines, q + 1) {
                Ok((ps, nq)) => {
                    positions = ps;
                    q = nq;
                },
                Err(e) => {
                    return Err(e);
                },
            }
        } else if range_is(l, a, b, "block") {
            let (d, q1) = match read_ascii_block_dims(lines, q + 1) {
                Ok(x) => x,
                Err(e) => {
                    return Err(e);
                },
            };
            proof {
                lemma_three_runs(ls, q1 as int, block_points(d)->0 as nat);
            }
            match read_ascii_block_coordinates(lines, q1, d) {
                Ok((ps, nq)) => {
                    positions = ps;
                    indices = structured_surface_indices(d.0, d.1, d.2);
                    q = nq;
                },
                Err(e) => {
                    return Err(e);
                },
            }
        } else if range_is(l, a, b, "part") {
            break;
        } else {
            let t = string_of(l, a, b);
            if is_element_type(t.as_str()) {
                match read_ascii_elements(lines, q + 1, t.as_str(), &mut indices) {
                    Ok(nq) => {
                        q = nq;
                    },
                    Err(e) => {
                        return Err(e);
                    },
                }
            } else {
                q = q + 1;
            }
        }
    }
    let g = GeoPart { name, positions, indices };
    Ok((g, q))
}

/// The first line after the header of an ASCII geometry file, searched from line `p`: the
/// `node id` and `element id` lines are passed over, and an `extents` line with the three
/// lines after it.
pub open spec fn ascii_header_end(ls: Seq<Seq<char>>, p: int) -> int
    decreases ls.len() - p,
{
    if p < 0 || p >= ls.len() {
        p
    } else {
        let t = trim(ls[p]);
        if starts(t, "node id"@) || starts(t, "element id"@) {
            ascii_header_end(ls, p + 1)
        } else if starts(t, "extents"@) {
            ascii_header_end(ls, skip_lines(ls, p + 1, 3))
        } else {
            p
        }
    }
}

/// The parts of an ASCII geometry file from line `p` on, after those in `acc`: each `part`
/// line opens a part, which is kept when it has points and triangles. `None` when a part
/// is malformed.
pub open spec fn ascii_parts(ls: Seq<Seq<char>>, p: int, acc: Seq<PartSpec<Seq<char>>>) -> Option<
    Seq<PartSpec<Seq<char>>>,
>
    decreases ls.len() - p,
{
    if p < 0 || p >= ls.len() {
        Some(acc)
    } else if trim(ls[p]) == "part"@ {
        match ascii_part(ls, p + 1) {
            None => None,
            Some((g, q)) => {
                proof {
                    lemma_ascii_part_body(ls, next_line(ls, next_line(ls, p + 1)), Seq::empty(), Seq::empty());
                }
                ascii_parts(ls, q, keep(acc, g))
            },
        }
    } else {
        ascii_parts(ls, p + 1, acc)
    }
}

/// The error of the parts of an ASCII geometry file from line `p` on, when they do not read
/// (see [`ascii_parts`]): that of the first malformed part.
pub open spec fn ascii_parts_error(ls: Seq<Seq<char>>, p: int, acc: Seq<PartSpec<Seq<char>>>) -> Seq<char>
    decreases ls.len() - p,
{
    if p < 0 || p >= ls.len() {
        Seq::empty()
    } else if trim(ls[p]) == "part"@ {
        match ascii_part(ls, p + 1) {
            None => ascii_part_error(ls, p + 1),
            Some((g, q)) => {
                proof {
                    lemma_ascii_part_body(ls, next_line(ls, next_line(ls, p + 1)), Seq::empty(), Seq::empty());
                }
                ascii_parts_error(ls, q, keep(acc, g))
            },
        }
    } else {
        ascii_parts_error(ls, p + 1, acc)
    }
}

/// The error of an ASCII geometry file that does not read (see [`ascii_geometry`]).
pub open spec fn ascii_geometry_error(text: Seq<char>) -> Seq<char> {
    let ls = crate::text::lines_from(text, 0);
    ascii_parts_error(ls, ascii_header_end(ls, skip_lines(ls, 0, 2)), Seq::empty())
}

/// The parts of an ASCII EnSight Gold geometry file `text`: two description lines, the
/// header lines, then its parts (see [`ascii_parts`]).
pub open spec fn ascii_geometry(text: Seq<char>) -> Option<Seq<PartSpec<Seq<char>>>> {
    let ls = crate::text::lines_from(text, 0);
    ascii_parts(ls, ascii_header_end(ls, skip_lines(ls, 0, 2)), Seq::empty())
}

/// Reads an ASCII EnSight Gold geometry file (see [`ascii_geometry`]). Fails when a part is
/// malformed.
pub fn read_geometry_ascii(text: &str) -> (r: Result<Vec<GeoPart<Vec<char>>>, IoError>)
    ensures
        match ascii_geometry(text@) {
            Some(v) => r matches Ok(w) && text_parts(w@) == v,
            None => r matches Err(IoError::Parse(m)) && m@ == ascii_geometry_error(text@),
        },
{
    let cs = chars_of(text);
    let lines = crate::text::split_lines(cs.as_slice());
    let ghost ls = texts(lines@);
    assert(ls =~= crate::text::lines_from(text@, 0));
    let len = lines.len();
    let mut p: usize = if len < 2 { len } else { 2 };
    while p < len
        invariant
            ls == texts(lines@),
            len == lines@.len(),
            p <= len,
            ascii_header_end(ls, skip_lines(ls, 0, 2)) == ascii_header_end(ls, p as int),
        ensures
            p <= len,
            ascii_header_end(ls, skip_lines(ls, 0, 2)) == p,
        decreases len - p,
    {
        let l = lines[p].as_slice();
        let (a, b) = trim_bounds(l);
        let t = string_of(l, a, b);
        let tc = chars_of(t.as_str());
        assert(tc@ == trim(ls[p as int]));
        if starts_with(tc.as_slice(), "node id") || starts_with(tc.as_slice(), "element id") {
            p = p + 1;
        } else if starts_with(tc.as_slice(), "extents") {
            p = if len - (p + 1) > 3 { p + 4 } else { len };
        } else {
            break;
        }
    }
    let mut parts: Vec<GeoPart<Vec<char>>> = Vec::new();
    proof {
        assert(text_parts(parts@) =~= Seq::<PartSpec<Seq<char>>>::empty());
    }
    while p < len
        invariant
            ls == texts(lines@),
            len == lines@.len(),
            p <= len,
            ascii_geometry(text@) == ascii_parts(ls, p as int, text_parts(parts@)),
            ascii_geometry_error(text@) == ascii_parts_error(ls, p as int, text_parts(parts@)),
        decreases len - p,
    {
        let l = lines[p].as_slice();
        let (a, b) = trim_bounds(l);
        if range_is(l, a, b, "part") {
            proof {
                lemma_ascii_part_body(ls, next_line(ls, next_line(ls, p + 1)), Seq::empty(), Seq::empty());
            }
            let (g, q) = match read_ascii_part(lines.as_slice(), p + 1) {
                Ok(x) => x,
                Err(e) => {
                    return Err(e);
                },
            };
            if g.positions.len() > 0 && g.indices.len() > 0 {
                let ghost before = parts@;
                parts.push(g);
                assert(text_parts(parts@) =~= text_parts(before).push(text_part(g)));
            }
            p = q;
        } else {
            p = p + 1;
        }
    }
    Ok(parts)
}

/// A binary part as the decoder describes it.
pub open spec fn bit_part(g: GeoPart<u32>) -> PartSpec<u32> {
    PartSpec { name: g.name@, positions: g.positions@, indices: g.indices@ }
}

/// Binary parts as the decoder describes them.
pub open spec fn bit_parts(v: Seq<GeoPart<u32>>) -> Seq<PartSpec<u32>> {
    v.map_values(|g: GeoPart<u32>| bit_part(g))
}

/// The text of the 80-byte record at `p`, trailing NULs dropped; `None` when fewer than 80
/// bytes remain.
pub open spec fn record_at(d: Seq<u8>, p: int) -> Option<Seq<char>> {
    if 0 <= p && p + 80 <= d.len() {
        Some(trim_nuls(lossy_text(d.subrange(p, p + 80))))
    } else {
        None
    }
}

/// The little-endian `i32` at `p`.
pub open spec fn i32_at(d: Seq<u8>, p: int) -> i32 {
    le_i32(d.subrange(p, p + 4))
}

/// The little-endian 32 bits at `p` (an `f32` value's bits).
pub open spec fn u32_at(d: Seq<u8>, p: int) -> u32 {
    le_u32(d.subrange(p, p + 4))
}

/// `n` points stored as all their x values from `p` on, then all y values, then all z
/// values, four bytes each.
pub open spec fn bit_points(d: Seq<u8>, p: int, n: nat) -> Seq<(u32, u32, u32)> {
    Seq::new(n, |i: int| (u32_at(d, p + 4 * i), u32_at(d, p + 4 * n + 4 * i), u32_at(d, p + 8 * n + 4 * i)))
}

/// The points of a binary `coordinates` section whose count is at `p`, with the position
/// after them; `Err` with the end of the data when they run past it (or the count is
/// negative).
pub open spec fn binary_coordinates(d: Seq<u8>, p: int) -> Result<(Seq<(u32, u32, u32)>, int), int> {
    if p + 4 > d.len() {
        Err(d.len() as int)
    } else {
        let n = i32_at(d, p);
        let q = p + 4;
        if n < 0 || q + 12 * n > d.len() {
            Err(d.len() as int)
        } else {
            Ok((bit_points(d, q, n as nat), q + 12 * n))
        }
    }
}

/// The points and dimensions of a binary `block` section whose dimensions are at `p`, with
/// the position after its values; `Err` with where the reader stands otherwise: after the
/// dimensions when one is not positive or the point count overflows, at the end when the
/// data end first.
pub open spec fn binary_block(d: Seq<u8>, p: int) -> Result<
    (Seq<(u32, u32, u32)>, (usize, usize, usize), int),
    int,
> {
    if p + 12 > d.len() {
        Err(d.len() as int)
    } else {
        let q = p + 12;
        let (ni, nj, nk) = (i32_at(d, p), i32_at(d, p + 4), i32_at(d, p + 8));
        if ni <= 0 || nj <= 0 || nk <= 0 {
            Err(q)
        } else {
            let dims = (ni as usize, nj as usize, nk as usize);
            match block_points(dims) {
                None => Err(q),
                Some(n) => if q + 12 * n > d.len() {
                    Err(d.len() as int)
                } else {
                    Ok((bit_points(d, q, n as nat), dims, q + 12 * n))
                },
            }
        }
    }
}

/// `n` little-endian `i32` values from `p` on.
pub open spec fn i32_run(d: Seq<u8>, p: int, n: nat) -> Seq<i32> {
    Seq::new(n, |i: int| i32_at(d, p + 4 * i))
}

/// The triangles of the first `k` elements of type `t` in a connectivity run of `np` 1-based
/// node numbers per element.
pub open spec fn conn_triangles(conn: Seq<i32>, t: Seq<char>, np: nat, k: nat) -> Seq<u32>
    decreases k,
{
    if k == 0 {
        Seq::empty()
    } else {
        conn_triangles(conn, t, np, (k - 1) as nat) + element_triangles(
            t,
            zero_based_all(conn.subrange((k - 1) * np, (k * np) as int)),
        )
    }
}

/// The triangles of a binary element section of type `t` whose count is at `p`, with the
/// position after its connectivity (right after the count for the variable types); `Err`
/// with the end of the data when the connectivity runs past it.
pub open spec fn binary_elements(d: Seq<u8>, p: int, t: Seq<char>) -> Result<(Seq<u32>, int), int> {
    if p + 4 > d.len() {
        Err(d.len() as int)
    } else {
        let n = i32_at(d, p);
        let q = p + 4;
        let np = type_nodes(t);
        if np == 0 {
            Ok((Seq::empty(), q))
        } else if n < 0 || q + 4 * (n * np) > d.len() {
            Err(d.len() as int)
        } else {
            Ok((conn_triangles(i32_run(d, q, (n * np) as nat), t, np, n as nat), q + 4 * (n * np)))
        }
    }
}

pub proof fn lemma_binary_elements(d: Seq<u8>, p: int, t: Seq<char>)
    requires
        0 <= p,
    ensures
        binary_elements(d, p, t) matches Ok((tris, q)) ==> p + 4 <= q <= d.len(),
{
    if p + 4 <= d.len() {
        let n = i32_at(d, p);
        let np = type_nodes(t);
        if n >= 0 {
            assert(n * np >= 0) by (nonlinear_arith)
                requires
                    n >= 0,
            ;
        }
    }
}

/// What the reader makes of a part body from `p` on, with name `name` and `pts`, `idx`
/// gathered so far: records are read until a `part` record (left for the caller), an
/// unknown record, or the end; `coordinates` and `block` sections replace the points (a
/// block also replaces the triangles), element sections append triangles. `Ok` with the part
/// and where it stops, or `Err` with where a failing section left the reader.
pub open spec fn binary_part_body(
    d: Seq<u8>,
    p: int,
    name: Seq<char>,
    pts: Seq<(u32, u32, u32)>,
    idx: Seq<u32>,
) -> Result<(PartSpec<u32>, int), int>
    decreases d.len() - p,
{
    match record_at(d, p) {
        None => Ok((PartSpec { name, positions: pts, indices: idx }, p)),
        Some(r) => {
            let t = trim(r);
            let q = p + 80;
            if t == "coordinates"@ {
                match binary_coordinates(d, q) {
                    Err(e) => Err(e),
                    Ok((ps, q2)) => binary_part_body(d, q2, name, ps, idx),
                }
            } else if t == "block"@ {
                match binary_block(d, q) {
                    Err(e) => Err(e),
                    Ok((ps, dims, q2)) => binary_part_body(
                        d,
                        q2,
                        name,
                        ps,
                        block_surface(dims.0 as int, dims.1 as int, dims.2 as int),
                    ),
                }
            } else if t == "part"@ {
                Ok((PartSpec { name, positions: pts, indices: idx }, p))
            } else if element_nodes(t) is Some {
                match binary_elements(d, q, t) {
                    Err(e) => Err(e),
                    Ok((tris, q2)) => {
                        proof {
                            lemma_binary_elements(d, q, t);
                        }
                        binary_part_body(d, q2, name, pts, idx + tris)
                    },
                }
            } else {
                Ok((PartSpec { name, positions: pts, indices: idx }, p))
            }
        },
    }
}

pub proof fn lemma_binary_part_body(
    d: Seq<u8>,
    p: int,
    name: Seq<char>,
    pts: Seq<(u32, u32, u32)>,
    idx: Seq<u32>,
)
    requires
        0 <= p <= d.len(),
    ensures
        match binary_part_body(d, p, name, pts, idx) {
            Ok((g, q)) => p <= q <= d.len(),
            Err(q) => p <= q <= d.len(),
        },
    decreases d.len() - p,
{
    if let Some(r) = record_at(d, p) {
        let t = trim(r);
        let q = p + 80;
        if t == "coordinates"@ {
            if let Ok((ps, q2)) = binary_coordinates(d, q) {
                lemma_binary_part_body(d, q2, name, ps, idx);
            }
        } else if t == "block"@ {
            if let Ok((ps, dims, q2)) = binary_block(d, q) {
                lemma_binary_part_body(d, q2, name, ps, block_surface(dims.0 as int, dims.1 as int, dims.2 as int));
            }
        } else if t == "part"@ {
        } else if element_nodes(t) is Some {
            lemma_binary_elements(d, q, t);
            if let Ok((tris, q2)) = binary_elements(d, q, t) {
                lemma_binary_part_body(d, q2, name, pts, idx + tris);
            }
        }
    }
}

/// The error of reading past the end of binary data.
pub open spec fn data_end_message() -> Seq<char> {
    "EnSight parse error: Binary read error: failed to fill whole buffer"@
}

/// The error of a binary `block` section at `p` that does not read (see [`binary_block`]).
pub open spec fn binary_block_error(d: Seq<u8>, p: int) -> Seq<char> {
    if p + 12 > d.len() {
        data_end_message()
    } else if i32_at(d, p) <= 0 || i32_at(d, p + 4) <= 0 || i32_at(d, p + 8) <= 0 {
        "EnSight parse error: Invalid structured block dimensions"@
    } else if block_points((i32_at(d, p) as usize, i32_at(d, p + 4) as usize, i32_at(d, p + 8) as usize)) is None {
        "EnSight parse error: Structured block point count overflow"@
    } else {
        data_end_message()
    }
}

/// The error of a binary part body from `p` on that fails (see [`binary_part_body`]): that
/// of its first failing section.
pub open spec fn binary_part_body_error(
    d: Seq<u8>,
    p: int,
    name: Seq<char>,
    pts: Seq<(u32, u32, u32)>,
    idx: Seq<u32>,
) -> Seq<char>
    decreases d.len() - p,
{
    match record_at(d, p) {
        None => Seq::empty(),
        Some(r) => {
            let t = trim(r);
            let q = p + 80;
            if t == "coordinates"@ {
                match binary_coordinates(d, q) {
                    Err(_) => data_end_message(),
                    Ok((ps, q2)) => binary_part_body_error(d, q2, name, ps, idx),
                }
            } else if t == "block"@ {
                match binary_block(d, q) {
                    Err(_) => binary_block_error(d, q),
                    Ok((ps, dims, q2)) => binary_part_body_error(
                        d,
                        q2,
                        name,
                        ps,
                        block_surface(dims.0 as int, dims.1 as int, dims.2 as int),
                    ),
                }
            } else if t == "part"@ {
                Seq::empty()
            } else if element_nodes(t) is Some {
                match binary_elements(d, q, t) {
                    Err(_) => data_end_message(),
                    Ok((tris, q2)) => {
                        proof {
                            lemma_binary_elements(d, q, t);
                        }
                        binary_part_body_error(d, q2, name, pts, idx + tris)
                    },
                }
            } else {
                Seq::empty()
            }
        },
    }
}

/// The error of a binary part whose number is at `p` and which fails (see [`binary_part`]).
pub open spec fn binary_part_error(d: Seq<u8>, p: int) -> Seq<char> {
    if p + 4 > d.len() {
        data_end_message()
    } else {
        match record_at(d, p + 4) {
            None => data_end_message(),
            Some(r) => binary_part_body_error(d, p + 84, trim(r), Seq::empty(), Seq::empty()),
        }
    }
}

/// A binary part whose number is at `p`: the number, the name record (trimmed), then the
/// body (see [`binary_part_body`]).
pub open spec fn binary_part(d: Seq<u8>, p: int) -> Result<(PartSpec<u32>, int), int> {
    if p + 4 > d.len() {
        Err(d.len() as int)
    } else {
        match record_at(d, p + 4) {
            None => Err(d.len() as int),
            Some(r) => binary_part_body(d, p + 84, trim(r), Seq::empty(), Seq::empty()),
        }
    }
}

pub proof fn lemma_binary_part(d: Seq<u8>, p: int)
    requires
        0 <= p <= d.len(),
    ensures
        match binary_part(d, p) {
            Ok((g, q)) => p <= q <= d.len(),
            Err(q) => p <= q <= d.len(),
        },
{
    if p + 4 <= d.len() {
        if let Some(r) = record_at(d, p + 4) {
            lemma_binary_part_body(d, p + 84, trim(r), Seq::empty(), Seq::empty());
        }
    }
}

/// The first part of a binary geometry file's records from `p` on, where the header is
/// read: `node id` and `element id` records are passed over, an `extents` record with its
/// six values, and `part` records open parts (kept when they have points and triangles);
/// any other record ends it. `Some` with the parts and the position after that record (or
/// where the records end); `None` when the extents or a part fail.
pub open spec fn binary_header(d: Seq<u8>, p: int, acc: Seq<PartSpec<u32>>) -> Option<
    (Seq<PartSpec<u32>>, int),
>
    decreases d.len() - p,
{
    match record_at(d, p) {
        None => Some((acc, p)),
        Some(r) => {
            let t = trim(r);
            let q = p + 80;
            if starts(t, "node id"@) || starts(t, "element id"@) {
                binary_header(d, q, acc)
            } else if starts(t, "extents"@) {
                if q + 24 <= d.len() {
                    binary_header(d, q + 24, acc)
                } else {
                    None
                }
            } else if t == "part"@ {
                match binary_part(d, q) {
                    Err(_) => None,
                    Ok((g, q2)) => {
                        proof {
                            lemma_binary_part(d, q);
                        }
                        binary_header(d, q2, keep(acc, g))
                    },
                }
            } else {
                Some((acc, q))
            }
        },
    }
}

/// The error of a binary geometry header from `p` on that fails (see [`binary_header`]): an
/// `extents` record without its values, or the first part that fails.
pub open spec fn binary_header_error(d: Seq<u8>, p: int, acc: Seq<PartSpec<u32>>) -> Seq<char>
    decreases d.len() - p,
{
    match record_at(d, p) {
        None => Seq::empty(),
        Some(r) => {
            let t = trim(r);
            let q = p + 80;
            if starts(t, "node id"@) || starts(t, "element id"@) {
                binary_header_error(d, q, acc)
            } else if starts(t, "extents"@) {
                if q + 24 <= d.len() {
                    binary_header_error(d, q + 24, acc)
                } else {
                    data_end_message()
                }
            } else if t == "part"@ {
                match binary_part(d, q) {
                    Err(_) => binary_part_error(d, q),
                    Ok((g, q2)) => {
                        proof {
                            lemma_binary_part(d, q);
                        }
                        binary_header_error(d, q2, keep(acc, g))
                    },
                }
            } else {
                Seq::empty()
            }
        },
    }
}

/// The error of a binary geometry file that does not read (see [`binary_geometry`]).
pub open spec fn binary_geometry_error(d: Seq<u8>) -> Seq<char> {
    if d.len() < 160 {
        data_end_message()
    } else {
        binary_header_error(d, 160, Seq::empty())
    }
}

/// The parts of a binary geometry file's remaining records from `p` on, after `acc`: each
/// `part` record opens a part, kept when it has points and triangles; a part that fails is
/// dropped and reading goes on from where it left the reader; other records are passed over.
pub open spec fn binary_rest(d: Seq<u8>, p: int, acc: Seq<PartSpec<u32>>) -> Seq<PartSpec<u32>>
    decreases d.len() - p,
{
    match record_at(d, p) {
        None => acc,
        Some(r) => {
            let q = p + 80;
            proof {
                lemma_binary_part(d, q);
            }
            if trim(r) == "part"@ {
                match binary_part(d, q) {
                    Ok((g, q2)) => binary_rest(d, q2, keep(acc, g)),
                    Err(q2) => binary_rest(d, q2, acc),
                }
            } else {
                binary_rest(d, q, acc)
            }
        },
    }
}

/// The parts of a C-binary EnSight Gold geometry file `d`: two 80-byte description records,
/// the header (see [`binary_header`]), then the remaining parts (see [`binary_rest`]).
/// `None` when the description records are missing or the header fails.
pub open spec fn binary_geometry(d: Seq<u8>) -> Option<Seq<PartSpec<u32>>> {
    if d.len() < 160 {
        None
    } else {
        match binary_header(d, 160, Seq::empty()) {
            None => None,
            Some((acc, p)) => Some(binary_rest(d, p, acc)),
        }
    }
}

/// The little-endian 32 bits at `pos`.
fn u32_le(data: &[u8], pos: usize) -> (r: u32)
    requires
        pos + 4 <= data@.len(),
    ensures
        r == u32_at(data@, pos as int),
{
    let ghost b = data@.subrange(pos as int, pos + 4);
    assert(b[0] == data@[pos as int] && b[1] == data@[pos + 1] && b[2] == data@[pos + 2] && b[3] == data@[pos + 3]);
    data[pos] as u32 + 256 * (data[pos + 1] as u32) + 65536 * (data[pos + 2] as u32) + 16777216 * (data[pos + 3] as u32)
}

/// The `n` points stored from `p` on (see [`bit_points`]).
fn read_bit_points(data: &[u8], p: usize, n: usize) -> (r: Vec<(u32, u32, u32)>)
    requires
        p + 12 * n <= data@.len(),
    ensures
        r@ == bit_points(data@, p as int, n as nat),
{
    let mut out: Vec<(u32, u32, u32)> = Vec::new();
    let dl = data.len();
    let mut i: usize = 0;
    while i < n
        invariant
            i <= n,
            dl == data@.len(),
            p + 12 * n <= data@.len(),
            out@ == bit_points(data@, p as int, n as nat).take(i as int),
        decreases n - i,
    {
        let x = u32_le(data, p + 4 * i);
        let y = u32_le(data, p + 4 * n + 4 * i);
        let z = u32_le(data, p + 8 * n + 4 * i);
        out.push((x, y, z));
        assert(bit_points(data@, p as int, n as nat).take(i + 1) =~= bit_points(data@, p as int, n as nat).take(
            i as int,
        ).push((x, y, z)));
        i = i + 1;
    }
    assert(bit_points(data@, p as int, n as nat).take(n as int) =~= bit_points(data@, p as int, n as nat));
    out
}

/// The error of a read past the end of the data.
fn end_of_data() -> (e: IoError)
    ensures
        e matches IoError::Parse(m) && m@ == "EnSight parse error: Binary read error: failed to fill whole buffer"@,
{
    parse_error("EnSight parse error: Binary read error: failed to fill whole buffer")
}

/// Reads a binary `coordinates` section whose count is at `pos` (see
/// [`binary_coordinates`]); an error comes with where the reader stands.
pub fn read_binary_coordinates(data: &[u8], pos: usize) -> (r: Result<(Vec<(u32, u32, u32)>, usize), (IoError, usize)>)
    requires
        pos <= data@.len(),
    ensures
        match binary_coordinates(data@, pos as int) {
            Ok((v, q)) => r matches Ok((w, e)) && w@ == v && e == q,
            Err(q) => r matches Err((IoError::Parse(m), f)) && m@ == data_end_message() && f == q,
        },
{
    let (n, q) = match read_i32(data, pos) {
        Some(x) => x,
        None => {
            return Err((end_of_data(), data.len()));
        },
    };
    if n < 0 {
        return Err((end_of_data(), data.len()));
    }
    let m = n as usize;
    let bytes = match m.checked_mul(12) {
        Some(b) => b,
        None => {
            return Err((end_of_data(), data.len()));
        },
    };
    if bytes > data.len() - q {
        return Err((end_of_data(), data.len()));
    }
    Ok((read_bit_points(data, q, m), q + bytes))
}

/// Reads a binary `block` section whose dimensions are at `pos` (see [`binary_block`]);
/// an error comes with where the reader stands.
pub fn read_binary_block(data: &[u8], pos: usize) -> (r: Result<
    (Vec<(u32, u32, u32)>, (usize, usize, usize), usize),
    (IoError, usize),
>)
    requires
        pos <= data@.len(),
    ensures
        match binary_block(data@, pos as int) {
            Ok((v, dims, q)) => r matches Ok((w, e, f)) && w@ == v && e == dims && f == q,
            Err(q) => r matches Err((IoError::Parse(m), f)) && m@ == binary_block_error(data@, pos as int) && f == q,
        },
{
    if data.len() - pos < 12 {
        return Err((end_of_data(), data.len()));
    }
    let (ni, q1) = read_i32(data, pos).unwrap();
    let (nj, q2) = read_i32(data, q1).unwrap();
    let (nk, q) = read_i32(data, q2).unwrap();
    if ni <= 0 || nj <= 0 || nk <= 0 {
        return Err((parse_error("EnSight parse error: Invalid structured block dimensions"), q));
    }
    let dims = (ni as usize, nj as usize, nk as usize);
    let n = match block_point_count(dims) {
        Some(n) => n,
        None => {
            return Err((parse_error("EnSight parse error: Structured block point count overflow"), q));
        },
    };
    let bytes = match n.checked_mul(12) {
        Some(b) => b,
        None => {
            return Err((end_of_data(), data.len()));
        },
    };
    if bytes > data.len() - q {
        return Err((end_of_data(), data.len()));
    }
    Ok((read_bit_points(data, q, n), dims, q + bytes))
}

/// Reads a binary element section of type `elem_type` whose count is at `pos`, appending its
/// triangles to `indices` (see [`binary_elements`]); returns the position after it, or an
/// error with where the reader stands.
pub fn read_binary_elements(data: &[u8], pos: usize, elem_type: &str, indices: &mut Vec<u32>) -> (r: Result<
    usize,
    (IoError, usize),
>)
    requires
        pos <= data@.len(),
    ensures
        match binary_elements(data@, pos as int, elem_type@) {
            Ok((tris, q)) => r == Ok::<usize, (IoError, usize)>(q as usize) && final(indices)@ == old(indices)@ + tris,
            Err(q) => r matches Err((IoError::Parse(m), f)) && m@ == data_end_message() && f == q && final(indices)@
                == old(indices)@,
        },
{
    let (n, q) = match read_i32(data, pos) {
        Some(x) => x,
        None => {
            return Err((end_of_data(), data.len()));
        },
    };
    let np = nodes_per_element(elem_type);
    if np == 0 {
        assert(old(indices)@ + Seq::<u32>::empty() =~= old(indices)@);
        return Ok(q);
    }
    if n < 0 {
        return Err((end_of_data(), data.len()));
    }
    let m = n as usize;
    let total = match m.checked_mul(np) {
        Some(t) => t,
        None => {
            return Err((end_of_data(), data.len()));
        },
    };
    let bytes = match total.checked_mul(4) {
        Some(b) => b,
        None => {
            return Err((end_of_data(), data.len()));
        },
    };
    if bytes > data.len() - q {
        return Err((end_of_data(), data.len()));
    }
    let (conn, after) = read_i32_array(data, q, total).unwrap();
    let ghost cv = i32_run(data@, q as int, total as nat);
    assert(conn@ =~= cv);
    let ghost start = indices@;
    let mut e: usize = 0;
    let mut base: usize = 0;
    while e < m
        invariant
            e <= m,
            total == m * np,
            np > 0,
            np == type_nodes(elem_type@),
            base == e * np,
            conn@ == cv,
            cv.len() == total,
            indices@ == start + conn_triangles(cv, elem_type@, np as nat, e as nat),
        decreases m - e,
    {
        assert(base + np <= total && (e + 1) * np == base + np) by (nonlinear_arith)
            requires
                e < m,
                base == e * np,
                total == m * np,
        ;
        let mut local: Vec<u32> = Vec::new();
        let mut j: usize = 0;
        while j < np
            invariant
                j <= np,
                base + np <= total,
                conn@ == cv,
                cv.len() == total,
                local@ == zero_based_all(cv.subrange(base as int, base + j)),
            decreases np - j,
        {
            let x = conn[base + j];
            let z: u32 = if x >= 1 {
                (x - 1) as u32
            } else {
                0
            };
            assert(z == zero_based(x));
            local.push(z);
            assert(zero_based_all(cv.subrange(base as int, base + j + 1)) =~= zero_based_all(
                cv.subrange(base as int, base + j),
            ).push(zero_based(cv[base + j])));
            j = j + 1;
        }
        proof {
            crate::ensight::lemma_shape_nodes(elem_type@);
        }
        triangulate_ensight(elem_type, local.as_slice(), indices);
        proof {
            assert(indices@ =~= start + conn_triangles(cv, elem_type@, np as nat, (e + 1) as nat));
        }
        e = e + 1;
        base = base + np;
    }
    assert(after == q + bytes);
    Ok(after)
}

/// The bounds of the trimmed text of a record, with its characters.
fn record_chars(rec: &String) -> (r: (Vec<char>, usize, usize))
    ensures
        r.1 <= r.2 <= r.0@.len(),
        r.0@ == rec@,
        r.0@.subrange(r.1 as int, r.2 as int) == trim(rec@),
{
    let rc = chars_of(rec.as_str());
    let (a, b) = trim_bounds(rc.as_slice());
    (rc, a, b)
}

/// Reads the binary part whose number is at `pos` (see [`binary_part`]); an error comes with
/// where the reader stands.
pub fn read_binary_part(data: &[u8], pos: usize) -> (r: Result<(GeoPart<u32>, usize), (IoError, usize)>)
    requires
        pos <= data@.len(),
    ensures
        match binary_part(data@, pos as int) {
            Ok((g, q)) => r matches Ok((h, e)) && bit_part(h) == g && e == q,
            Err(q) => r matches Err((IoError::Parse(m), f)) && m@ == binary_part_error(data@, pos as int) && f == q,
        },
{
    let ghost d = data@;
    proof {
        reveal_strlit("coordinates");
        reveal_strlit("block");
        reveal_strlit("part");
        assert("coordinates"@.len() == 11 && "block"@.len() == 5 && "part"@.len() == 4);
    }
    let (_number, p1) = match read_i32(data, pos) {
        Some(x) => x,
        None => {
            return Err((end_of_data(), data.len()));
        },
    };
    let (rec, p2) = match read_record_string(data, p1) {
        Some(x) => x,
        None => {
            return Err((end_of_data(), data.len()));
        },
    };
    let (rc, a, b) = record_chars(&rec);
    let name = string_of(rc.as_slice(), a, b);
    let mut positions: Vec<(u32, u32, u32)> = Vec::new();
    let mut indices: Vec<u32> = Vec::new();
    let mut p = p2;
    let len = data.len();
    loop
        invariant
            d == data@,
            len == d.len(),
            p2 <= p <= len,
            p2 == pos + 84,
            "coordinates"@.len() == 11 && "block"@.len() == 5 && "part"@.len() == 4,
            binary_part(d, pos as int) == binary_part_body(d, p as int, name@, positions@, indices@),
            binary_part_error(d, pos as int) == binary_part_body_error(d, p as int, name@, positions@, indices@),
        ensures
            binary_part(d, pos as int) == Ok::<(PartSpec<u32>, int), int>(
                (PartSpec { name: name@, positions: positions@, indices: indices@ }, p as int),
            ),
        decreases len - p,
    {
        let (rec, q) = match read_record_string(data, p) {
            Some(x) => x,
            None => {
                break;
            },
        };
        let (rc, a, b) = record_chars(&rec);
        let l = rc.as_slice();
        if range_is(l, a, b, "coordinates") {
            match read_binary_coordinates(data, q) {
                Ok((ps, q2)) => {
                    positions = ps;
                    p = q2;
                },
                Err(e) => {
                    return Err(e);
                },
            }
        } else if range_is(l, a, b, "block") {
            match read_binary_block(data, q) {
                Ok((ps, dims, q2)) => {
                    positions = ps;
                    indices = structured_surface_indices(dims.0, dims.1, dims.2);
                    p = q2;
                },
                Err(e) => {
                    return Err(e);
                },
            }
        } else if range_is(l, a, b, "part") {
            break;
        } else {
            let t = string_of(l, a, b);
            if is_element_type(t.as_str()) {
                proof {
                    lemma_binary_elements(d, q as int, t@);
                }
                match read_binary_elements(data, q, t.as_str(), &mut indices) {
                    Ok(q2) => {
                        p = q2;
                    },
                    Err(e) => {
                        return Err(e);
                    },
                }
            } else {
                break;
            }
        }
    }
    Ok((GeoPart { name, positions, indices }, p))
}

/// Reads a C-binary EnSight Gold geometry file (see [`binary_geometry`]). Fails when the
/// description records are missing, or an `extents` record or a part of the header fails.
pub fn read_geometry_binary(data: &[u8]) -> (r: Result<Vec<GeoPart<u32>>, IoError>)
    ensures
        match binary_geometry(data@) {
            Some(v) => r matches Ok(w) && bit_parts(w@) == v,
            None => r matches Err(IoError::Parse(m)) && m@ == binary_geometry_error(data@),
        },
{
    let ghost d = data@;
    proof {
        reveal_strlit("part");
    }
    let len = data.len();
    if len < 160 {
        return Err(end_of_data());
    }
    let mut parts: Vec<GeoPart<u32>> = Vec::new();
    let mut p: usize = 160;
    proof {
        assert(bit_parts(parts@) =~= Seq::<PartSpec<u32>>::empty());
    }
    loop
        invariant_except_break
            binary_header(d, 160, Seq::empty()) == binary_header(d, p as int, bit_parts(parts@)),
            binary_header_error(d, 160, Seq::empty()) == binary_header_error(d, p as int, bit_parts(parts@)),
        invariant
            d == data@,
            len == d.len(),
            p <= len,
        ensures
            p <= len,
            binary_header(d, 160, Seq::empty()) == Some((bit_parts(parts@), p as int)),
        decreases len - p,
    {
        let (rec, q) = match read_record_string(data, p) {
            Some(x) => x,
            None => {
                break;
            },
        };
        let (rc, a, b) = record_chars(&rec);
        let l = rc.as_slice();
        let t = string_of(l, a, b);
        let tc = chars_of(t.as_str());
        if starts_with(tc.as_slice(), "node id") || starts_with(tc.as_slice(), "element id") {
            p = q;
        } else if starts_with(tc.as_slice(), "extents") {
            if len - q < 24 {
                return Err(end_of_data());
            }
            p = q + 24;
        } else if range_is(l, a, b, "part") {
            proof {
                lemma_binary_part(d, q as int);
            }
            match read_binary_part(data, q) {
                Ok((g, q2)) => {
                    if g.positions.len() > 0 && g.indices.len() > 0 {
                        let ghost before = parts@;
                        parts.push(g);
                        assert(bit_parts(parts@) =~= bit_parts(before).push(bit_part(g)));
                    }
                    p = q2;
                },
                Err((e, _)) => {
                    return Err(e);
                },
            }
        } else {
            p = q;
            break;
        }
    }
    loop
        invariant
            d == data@,
            len == d.len(),
            p <= len,
            binary_geometry(d) == Some(binary_rest(d, p as int, bit_parts(parts@))),
        ensures
            binary_geometry(d) == Some(bit_parts(parts@)),
        decreases len - p,
    {
        let (rec, q) = match read_record_string(data, p) {
            Some(x) => x,
            None => {
                break;
            },
        };
        let (rc, a, b) = record_chars(&rec);
        proof {
            lemma_binary_part(d, q as int);
        }
        if range_is(rc.as_slice(), a, b, "part") {
            match read_binary_part(data, q) {
                Ok((g, q2)) => {
                    if g.positions.len() > 0 && g.indices.len() > 0 {
                        let ghost before = parts@;
                        parts.push(g);
                        assert(bit_parts(parts@) =~= bit_parts(before).push(bit_part(g)));
                    }
                    p = q2;
                },
                Err((_, q2)) => {
                    p = q2;
                },
            }
        } else {
            p = q;
        }
    }
    Ok(parts)
}

/// The value count of a variable part with `n` entries: three per entry for a vector.
pub open spec fn value_count(n: nat, vector: bool) -> nat {
    if vector {
        3 * n
    } else {
        n
    }
}

/// The count on line `p`, 0 when the line is missing or not a number.
pub open spec fn count_or_zero(ls: Seq<Seq<char>>, p: int) -> usize {
    match count_line(ls, p) {
        Some(v) => v,
        None => 0,
    }
}

/// The entry count of the next part of an ASCII variable file whose block line (trimmed)
/// is `block` and whose following line is line `p`, with the position where its values
/// start: a `block` part has as many entries as `expected` gives for part `k` (0 past its
/// end), a `coordinates` or element part reads its count from line `p`, and any other block
/// line is read as the count itself (0 when it is not a number).
pub open spec fn ascii_var_count(ls: Seq<Seq<char>>, p: int, block: Seq<char>, expected: Seq<usize>, k: int) -> (
    usize,
    int,
) {
    if block == "block"@ {
        (if 0 <= k < expected.len() { expected[k] } else { 0 }, p)
    } else if block == "coordinates"@ || element_nodes(block) is Some {
        (count_or_zero(ls, p), next_line(ls, p))
    } else {
        (
            match usize_value(block) {
                Some(v) => v,
                None => 0,
            },
            p,
        )
    }
}

/// The value runs of an ASCII variable file from line `p` on, after `acc`: each `part` line
/// is followed by the part number line and the block line, then the part's values (see
/// [`ascii_var_count`]); other lines are passed over. `None` when the values run out or
/// their count overflows.
pub open spec fn ascii_var_parts(
    ls: Seq<Seq<char>>,
    p: int,
    expected: Seq<usize>,
    vector: bool,
    acc: Seq<Seq<Seq<char>>>,
) -> Option<Seq<Seq<Seq<char>>>>
    decreases ls.len() - p,
{
    if p < 0 || p >= ls.len() {
        Some(acc)
    } else if trim(ls[p]) == "part"@ {
        let p1 = next_line(ls, p + 1);
        let (n, p3) = ascii_var_count(ls, next_line(ls, p1), trim(line_at(ls, p1)), expected, acc.len() as int);
        let total = value_count(n as nat, vector);
        if total > usize::MAX {
            None
        } else {
            match floats_from(ls, p3, total, Seq::empty()) {
                None => None,
                Some((v, q)) => {
                    proof {
                        lemma_floats_from(ls, p3, total, Seq::empty());
                    }
                    ascii_var_parts(ls, q, expected, vector, acc.push(v))
                },
            }
        }
    } else {
        ascii_var_parts(ls, p + 1, expected, vector, acc)
    }
}

/// The error of the value runs of an ASCII variable file from line `p` on, when they do not
/// read (see [`ascii_var_parts`]): a value count that overflows, or values that run out.
pub open spec fn ascii_var_parts_error(
    ls: Seq<Seq<char>>,
    p: int,
    expected: Seq<usize>,
    vector: bool,
    acc: Seq<Seq<Seq<char>>>,
) -> Seq<char>
    decreases ls.len() - p,
{
    if p < 0 || p >= ls.len() {
        Seq::empty()
    } else if trim(ls[p]) == "part"@ {
        let p1 = next_line(ls, p + 1);
        let (n, p3) = ascii_var_count(ls, next_line(ls, p1), trim(line_at(ls, p1)), expected, acc.len() as int);
        let total = value_count(n as nat, vector);
        if total > usize::MAX {
            "EnSight parse error: variable value count overflow"@
        } else {
            match floats_from(ls, p3, total, Seq::empty()) {
                None => numeric_end_message(),
                Some((v, q)) => {
                    proof {
                        lemma_floats_from(ls, p3, total, Seq::empty());
                    }
                    ascii_var_parts_error(ls, q, expected, vector, acc.push(v))
                },
            }
        }
    } else {
        ascii_var_parts_error(ls, p + 1, expected, vector, acc)
    }
}

/// The error of an ASCII variable file that does not read (see [`ascii_variable`]).
pub open spec fn ascii_variable_error(text: Seq<char>, expected: Seq<usize>, vector: bool) -> Seq<char> {
    let ls = crate::text::lines_from(text, 0);
    ascii_var_parts_error(ls, next_line(ls, 0), expected, vector, Seq::empty())
}

/// The value runs of an ASCII EnSight Gold variable file `text`, one per part, for parts
/// with `expected` entries where the file leaves the count to the geometry; three values
/// per entry when `vector`.
pub open spec fn ascii_variable(text: Seq<char>, expected: Seq<usize>, vector: bool) -> Option<Seq<Seq<Seq<char>>>> {
    let ls = crate::text::lines_from(text, 0);
    ascii_var_parts(ls, next_line(ls, 0), expected, vector, Seq::empty())
}

/// Reads an ASCII EnSight Gold variable file (see [`ascii_variable`]). Fails when the values
/// run out.
pub fn read_variable_ascii(text: &str, expected: &[usize], is_vector: bool) -> (r: Result<Vec<Vec<Vec<char>>>, IoError>)
    ensures
        match ascii_variable(text@, expected@, is_vector) {
            Some(v) => r matches Ok(w) && tables(w@) == v,
            None => r matches Err(IoError::Parse(m)) && m@ == ascii_variable_error(text@, expected@, is_vector),
        },
{
    proof {
        reveal_strlit("coordinates");
        reveal_strlit("block");
        assert("coordinates"@.len() == 11 && "block"@.len() == 5);
    }
    let cs = chars_of(text);
    let lines = crate::text::split_lines(cs.as_slice());
    let ghost ls = texts(lines@);
    assert(ls =~= crate::text::lines_from(text@, 0));
    let len = lines.len();
    let mut parts: Vec<Vec<Vec<char>>> = Vec::new();
    let mut p: usize = if len > 0 { 1 } else { 0 };
    proof {
        assert(tables(parts@) =~= Seq::<Seq<Seq<char>>>::empty());
    }
    while p < len
        invariant
            ls == texts(lines@),
            len == lines@.len(),
            p <= len,
            "coordinates"@.len() == 11 && "block"@.len() == 5,
            ascii_variable(text@, expected@, is_vector) == ascii_var_parts(ls, p as int, expected@, is_vector, tables(parts@)),
            ascii_variable_error(text@, expected@, is_vector) == ascii_var_parts_error(
                ls,
                p as int,
                expected@,
                is_vector,
                tables(parts@),
            ),
        decreases len - p,
    {
        let l = lines[p].as_slice();
        let (a, b) = trim_bounds(l);
        if range_is(l, a, b, "part") {
            let p1 = if p + 1 < len { p + 2 } else { len };
            let p2 = if p1 < len { p1 + 1 } else { p1 };
            let empty: Vec<char> = Vec::new();
            let bl: &[char] = if p1 < len { lines[p1].as_slice() } else { empty.as_slice() };
            assert(bl@ == line_at(ls, p1 as int));
            let (ba, bb) = trim_bounds(bl);
            let k = parts.len();
            let (n, p3) = if range_is(bl, ba, bb, "block") {
                (if k < expected.len() { expected[k] } else { 0 }, p2)
            } else {
                let bt = string_of(bl, ba, bb);
                if range_is(bl, ba, bb, "coordinates") || is_element_type(bt.as_str()) {
                    let c = match count_at(lines.as_slice(), p2) {
                        Some(v) => v,
                        None => 0,
                    };
                    (c, if p2 < len { p2 + 1 } else { p2 })
                } else {
                    (match parse_usize(bl, ba, bb) {
                        Some(v) => v,
                        None => 0,
                    }, p2)
                }
            };
            let total = if is_vector {
                match n.checked_mul(3) {
                    Some(t) => t,
                    None => {
                        return Err(parse_error("EnSight parse error: variable value count overflow"));
                    },
                }
            } else {
                n
            };
            proof {
                lemma_floats_from(ls, p3 as int, total as nat, Seq::empty());
            }
            let (vals, q) = match read_n_floats(lines.as_slice(), p3, total) {
                Ok(x) => x,
                Err(e) => {
                    return Err(e);
                },
            };
            let ghost before = parts@;
            parts.push(vals);
            assert(tables(parts@) =~= tables(before).push(texts(vals@)));
            p = q;
        } else {
            p = p + 1;
        }
    }
    Ok(parts)
}

/// `n` little-endian 32-bit values from `p` on.
pub open spec fn u32_run(d: Seq<u8>, p: int, n: nat) -> Seq<u32> {
    Seq::new(n, |i: int| u32_at(d, p + 4 * i))
}

/// The runs of vectors of values.
pub open spec fn runs(v: Seq<Vec<u32>>) -> Seq<Seq<u32>> {
    v.map_values(|x: Vec<u32>| x@)
}

/// The value runs of a binary variable file's records from `p` on, after `acc`: a `part`
/// record is followed by the part number and a block record: a `coordinates` or element
/// record by a count and its values, a `block` record by as many values as `expected`
/// gives for the part (0 past its end), three per entry when `vector`; other records are
/// passed over. Reading stops where the records end; `None` when the part number, a count
/// or the values run past the data.
pub open spec fn binary_var_parts(
    d: Seq<u8>,
    p: int,
    expected: Seq<usize>,
    vector: bool,
    acc: Seq<Seq<u32>>,
) -> Option<Seq<Seq<u32>>>
    decreases d.len() - p,
{
    match record_at(d, p) {
        None => Some(acc),
        Some(r) => {
            let q = p + 80;
            if trim(r) == "part"@ {
                if q + 4 > d.len() {
                    None
                } else {
                    match record_at(d, q + 4) {
                        None => Some(acc),
                        Some(r2) => {
                            let t = trim(r2);
                            let q2 = q + 84;
                            if t == "coordinates"@ || element_nodes(t) is Some {
                                if q2 + 4 > d.len() {
                                    None
                                } else {
                                    let n = i32_at(d, q2);
                                    let q3 = q2 + 4;
                                    if n < 0 || q3 + 4 * value_count(n as nat, vector) > d.len() {
                                        None
                                    } else {
                                        binary_var_parts(
                                            d,
                                            q3 + 4 * value_count(n as nat, vector),
                                            expected,
                                            vector,
                                            acc.push(u32_run(d, q3, value_count(n as nat, vector))),
                                        )
                                    }
                                }
                            } else if t == "block"@ {
                                let n = if acc.len() < expected.len() {
                                    expected[acc.len() as int]
                                } else {
                                    0
                                };
                                if q2 + 4 * value_count(n as nat, vector) > d.len() {
                                    None
                                } else {
                                    binary_var_parts(
                                        d,
                                        q2 + 4 * value_count(n as nat, vector),
                                        expected,
                                        vector,
                                        acc.push(u32_run(d, q2, value_count(n as nat, vector))),
                                    )
                                }
                            } else {
                                binary_var_parts(d, q2, expected, vector, acc)
                            }
                        },
                    }
                }
            } else {
                binary_var_parts(d, q, expected, vector, acc)
            }
        },
    }
}

/// The value runs of a C-binary EnSight Gold variable file `d`: a description record, then
/// its parts (see [`binary_var_parts`]). `None` when the description record is missing.
pub open spec fn binary_variable(d: Seq<u8>, expected: Seq<usize>, vector: bool) -> Option<Seq<Seq<u32>>> {
    if d.len() < 80 {
        None
    } else {
        binary_var_parts(d, 80, expected, vector, Seq::empty())
    }
}

/// `n` little-endian 32-bit values from `p` on.
fn read_u32_run(data: &[u8], p: usize, n: usize) -> (r: Vec<u32>)
    requires
        p + 4 * n <= data@.len(),
    ensures
        r@ == u32_run(data@, p as int, n as nat),
{
    let mut out: Vec<u32> = Vec::new();
    let dl = data.len();
    let mut i: usize = 0;
    while i < n
        invariant
            i <= n,
            dl == data@.len(),
            p + 4 * n <= data@.len(),
            out@ == u32_run(data@, p as int, n as nat).take(i as int),
        decreases n - i,
    {
        out.push(u32_le(data, p + 4 * i));
        assert(u32_run(data@, p as int, n as nat).take(i + 1) =~= u32_run(data@, p as int, n as nat).take(
            i as int,
        ).push(u32_at(data@, p + 4 * i)));
        i = i + 1;
    }
    assert(u32_run(data@, p as int, n as nat).take(n as int) =~= u32_run(data@, p as int, n as nat));
    out
}

/// The 4-byte values of `n` entries (three values each when `vector`) at `p`, when they fit
/// in the data.
fn read_values(data: &[u8], p: usize, n: usize, vector: bool) -> (r: Option<(Vec<u32>, usize)>)
    requires
        p <= data@.len(),
    ensures
        p + 4 * value_count(n as nat, vector) <= data@.len() ==> (r matches Some((v, q)) && v@ == u32_run(
            data@,
            p as int,
            value_count(n as nat, vector),
        ) && q == p + 4 * value_count(n as nat, vector)),
        p + 4 * value_count(n as nat, vector) > data@.len() ==> r is None,
{
    let dl = data.len();
    let total = if vector {
        match n.checked_mul(3) {
            Some(t) => t,
            None => {
                return None;
            },
        }
    } else {
        n
    };
    let bytes = match total.checked_mul(4) {
        Some(b) => b,
        None => {
            return None;
        },
    };
    if bytes > dl - p {
        return None;
    }
    Some((read_u32_run(data, p, total), p + bytes))
}

/// Reads a C-binary EnSight Gold variable file (see [`binary_variable`]). Fails when the
/// description record is missing or a part runs past the data.
pub fn read_variable_binary(data: &[u8], expected: &[usize], is_vector: bool) -> (r: Result<Vec<Vec<u32>>, IoError>)
    ensures
        match binary_variable(data@, expected@, is_vector) {
            Some(v) => r matches Ok(w) && runs(w@) == v,
            None => r matches Err(IoError::Parse(m)) && m@ == data_end_message(),
        },
{
    proof {
        reveal_strlit("coordinates");
        reveal_strlit("block");
        assert("coordinates"@.len() == 11 && "block"@.len() == 5);
    }
    let ghost d = data@;
    let len = data.len();
    if len < 80 {
        return Err(end_of_data());
    }
    let mut parts: Vec<Vec<u32>> = Vec::new();
    let mut p: usize = 80;
    proof {
        assert(runs(parts@) =~= Seq::<Seq<u32>>::empty());
    }
    loop
        invariant_except_break
            binary_variable(d, expected@, is_vector) == binary_var_parts(d, p as int, expected@, is_vector, runs(parts@)),
        invariant
            d == data@,
            len == d.len(),
            80 <= p <= len,
            "coordinates"@.len() == 11 && "block"@.len() == 5,
        ensures
            binary_variable(d, expected@, is_vector) == Some(runs(parts@)),
        decreases len - p,
    {
        let (rec, q) = match read_record_string(data, p) {
            Some(x) => x,
            None => {
                break;
            },
        };
        let (rc, a, b) = record_chars(&rec);
        if range_is(rc.as_slice(), a, b, "part") {
            if len - q < 4 {
                return Err(end_of_data());
            }
            let q1 = q + 4;
            let (rec2, q2) = match read_record_string(data, q1) {
                Some(x) => x,
                None => {
                    break;
                },
            };
            let (tc, ta, tb) = record_chars(&rec2);
            let t = string_of(tc.as_slice(), ta, tb);
            let l = tc.as_slice();
            if range_is(l, ta, tb, "coordinates") || is_element_type(t.as_str()) {
                let (n, q3) = match read_i32(data, q2) {
                    Some(x) => x,
                    None => {
                        return Err(end_of_data());
                    },
                };
                if n < 0 {
                    return Err(end_of_data());
                }
                match read_values(data, q3, n as usize, is_vector) {
                    Some((vals, q4)) => {
                        let ghost before = parts@;
                        parts.push(vals);
                        assert(runs(parts@) =~= runs(before).push(vals@));
                        p = q4;
                    },
                    None => {
                        return Err(end_of_data());
                    },
                }
            } else if range_is(l, ta, tb, "block") {
                let k = parts.len();
                let n = if k < expected.len() {
                    expected[k]
                } else {
                    0
                };
                match read_values(data, q2, n, is_vector) {
                    Some((vals, q4)) => {
                        let ghost before = parts@;
                        parts.push(vals);
                        assert(runs(parts@) =~= runs(before).push(vals@));
                        p = q4;
                    },
                    None => {
                        return Err(end_of_data());
                    },
                }
            } else {
                p = q2;
            }
        } else {
            p = q;
        }
    }
    Ok(parts)
}

/// A decoded geometry file: ASCII parts carry number texts, binary parts the bits of `f32`
/// values.
pub enum Geometry {
    Ascii(Vec<GeoPart<Vec<char>>>),
    Binary(Vec<GeoPart<u32>>),
}

/// Whether a geometry file is read as C binary: it has at least 80 bytes, and the text of
/// the first 80 contains `C Binary`.
pub open spec fn binary_geometry_file(d: Seq<u8>) -> bool {
    d.len() >= 80 && crate::text::has_sub(lossy_text(d.subrange(0, 80)), "C Binary"@)
}

/// Reads an EnSight Gold geometry file: as C binary (see [`binary_geometry`]) when it looks
/// so, else as the text of its bytes (see [`ascii_geometry`]).
pub fn read_geometry(data: &[u8]) -> (r: Result<Geometry, IoError>)
    ensures
        binary_geometry_file(data@) ==> match binary_geometry(data@) {
            Some(v) => r matches Ok(Geometry::Binary(w)) && bit_parts(w@) == v,
            None => r matches Err(IoError::Parse(m)) && m@ == binary_geometry_error(data@),
        },
        !binary_geometry_file(data@) ==> match ascii_geometry(lossy_text(data@)) {
            Some(v) => r matches Ok(Geometry::Ascii(w)) && text_parts(w@) == v,
            None => r matches Err(IoError::Parse(m)) && m@ == ascii_geometry_error(lossy_text(data@)),
        },
{
    if data.len() >= 80 && crate::ensight::is_c_binary(data) {
        match read_geometry_binary(data) {
            Ok(v) => Ok(Geometry::Binary(v)),
            Err(e) => Err(e),
        }
    } else {
        let text = crate::ensight::lossy(data);
        match read_geometry_ascii(text.as_str()) {
            Ok(v) => Ok(Geometry::Ascii(v)),
            Err(e) => Err(e),
        }
    }
}

/// Decodes the geometry file of an EnSight Gold case (see [`read_geometry`]), failing with
/// an empty-dataset error when it has no part with points and triangles.
pub fn datasets_from_path(geometry: &[u8]) -> (r: Result<Geometry, IoError>)
    ensures
        binary_geometry_file(geometry@) ==> match binary_geometry(geometry@) {
            Some(v) => if v.len() > 0 {
                r matches Ok(Geometry::Binary(w)) && bit_parts(w@) == v
            } else {
                r matches Err(IoError::Parse(m)) && m@ == "empty dataset"@
            },
            None => r matches Err(IoError::Parse(m)) && m@ == binary_geometry_error(geometry@),
        },
        !binary_geometry_file(geometry@) ==> match ascii_geometry(lossy_text(geometry@)) {
            Some(v) => if v.len() > 0 {
                r matches Ok(Geometry::Ascii(w)) && text_parts(w@) == v
            } else {
                r matches Err(IoError::Parse(m)) && m@ == "empty dataset"@
            },
            None => r matches Err(IoError::Parse(m)) && m@ == ascii_geometry_error(lossy_text(geometry@)),
        },
{
    let g = match read_geometry(geometry) {
        Ok(g) => g,
        Err(e) => {
            return Err(e);
        },
    };
    let n = match &g {
        Geometry::Ascii(v) => v.len(),
        Geometry::Binary(v) => v.len(),
    };
    if n == 0 {
        return Err(parse_error("empty dataset"));
    }
    Ok(g)
}

/// The values of a decoded variable file, one run per part: number texts from an ASCII
/// file, `f32` bits from a binary one.
pub enum VariableValues {
    Ascii(Vec<Vec<Vec<char>>>),
    Binary(Vec<Vec<u32>>),
}

/// Whether a variable file is read as C binary: it has at least 80 bytes, and either the
/// text of the first 80 contains `C Binary` or the bytes are not UTF-8.
pub open spec fn binary_variable_file(d: Seq<u8>) -> bool {
    d.len() >= 80 && (crate::text::has_sub(lossy_text(d.subrange(0, 80)), "C Binary"@)
        || !vstd::utf8::valid_utf8(d))
}

/// Reads an EnSight Gold variable file for parts with `expected` entries, three values per
/// entry when `is_vector`: as C binary (see [`binary_variable`]) when it looks so, else as
/// the text of its bytes (see [`ascii_variable`]).
pub fn read_variable_file(data: &[u8], expected: &[usize], is_vector: bool) -> (r: Result<VariableValues, IoError>)
    ensures
        binary_variable_file(data@) ==> match binary_variable(data@, expected@, is_vector) {
            Some(v) => r matches Ok(VariableValues::Binary(w)) && runs(w@) == v,
            None => r matches Err(IoError::Parse(m)) && m@ == data_end_message(),
        },
        !binary_variable_file(data@) ==> match ascii_variable(lossy_text(data@), expected@, is_vector) {
            Some(v) => r matches Ok(VariableValues::Ascii(w)) && tables(w@) == v,
            None => r matches Err(IoError::Parse(m)) && m@ == ascii_variable_error(
                lossy_text(data@),
                expected@,
                is_vector,
            ),
        },
{
    if data.len() >= 80 && crate::ensight::is_probably_binary(data) {
        match read_variable_binary(data, expected, is_vector) {
            Ok(v) => Ok(VariableValues::Binary(v)),
            Err(e) => Err(e),
        }
    } else {
        let text = crate::ensight::lossy(data);
        match read_variable_ascii(text.as_str(), expected, is_vector) {
            Ok(v) => Ok(VariableValues::Ascii(v)),
            Err(e) => Err(e),
        }
    }
}

} // verus!
