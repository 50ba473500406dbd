//! FBX load options, the axis-conversion decisions they drive, node kinds, and the
//! skeleton bookkeeping of the FBX loader: bone ordering and rig reuse.
use vstd::prelude::*;

use crate::bvh::{Joint, Skeleton};

verus! {

/// How the loader decides whether to apply the Y-up to Z-up axis transform.
///
/// FBX files don't carry enough metadata to reliably tell whether a given leaf's raw vertices
/// are Y-up or Z-up: the `GlobalSettings.UpAxis` header is often inconsistent with the actual
/// vertex orientation, and `Lcl Rotation` bakes can mean either "axis conversion" or
/// "placement". Callers with out-of-band knowledge of their asset pipeline can use this to
/// override the default heuristic.
#[derive(Clone, Copy, Debug, PartialEq, Eq, Structural)]
pub enum AxisPolicy {
    /// Apply `+90 degrees` about X by default, with a per-leaf signed veto: if the cumulative
    /// parent chain already maps +Y to +Z, suppress the axis transform for that leaf. This is
    /// the default.
    HeuristicVeto,
    /// Honour `GlobalSettings.UpAxis` literally: `UpAxis = Y` applies `+90 degrees` about X;
    /// `UpAxis = Z` applies identity; no per-leaf veto.
    HonourHeader,
    /// Always apply `+90 degrees` about X regardless of header or chain.
    ForceYUpRaw,
    /// Never apply any axis transform.
    PassThrough,
}

impl Default for AxisPolicy {
    fn default() -> (r: Self)
        ensures
            r == AxisPolicy::HeuristicVeto,
    {
        AxisPolicy::HeuristicVeto
    }
}

/// Where the cumulative parent-chain transform sits relative to the axis transform when
/// composing the per-leaf world matrix.
#[derive(Clone, Copy, Debug, PartialEq, Eq, Structural)]
pub enum CumulativeOrder {
    /// `effective_axis * scale * cumulative * geometric`: the chain is composed in the source
    /// frame and the axis transform is the final step. This is the default.
    PreAxis,
    /// `scale * cumulative * effective_axis * geometric`: the axis transform runs first and
    /// the chain then places the result in the consumer frame.
    PostAxis,
}

impl Default for CumulativeOrder {
    fn default() -> (r: Self)
        ensures
            r == CumulativeOrder::PreAxis,
    {
        CumulativeOrder::PreAxis
    }
}

/// Per-call overrides for decoding an FBX scene. Defaults preserve the loader's historical
/// behaviour.
#[derive(Clone, Copy, Debug, PartialEq, Eq, Structural)]
pub struct FbxLoadOptions {
    /// Strategy for deciding whether to apply the Y-up to Z-up axis transform per leaf.
    pub axis_policy: AxisPolicy,
    /// Ordering of the cumulative parent-chain transform relative to the axis transform.
    pub cumulative_order: CumulativeOrder,
}

impl Default for FbxLoadOptions {
    fn default() -> (r: Self)
        ensures
            r.axis_policy == AxisPolicy::HeuristicVeto,
            r.cumulative_order == CumulativeOrder::PreAxis,
    {
        FbxLoadOptions { axis_policy: AxisPolicy::default(), cumulative_order: CumulativeOrder::default() }
    }
}

/// Kind of FBX node visited during the parent-chain walk.
#[derive(Clone, Copy, Debug, PartialEq, Eq, Structural)]
pub enum FbxNodeKind {
    /// A Mesh node (the leaf is always one of these).
    Mesh,
    /// A Null node: Unity-exported FBX stacks these as LODGroup containers and exporter
    /// scaffolding.
    Null,
    /// A skeleton bone.
    LimbNode,
    /// A Light node.
    Light,
    /// A Camera node.
    Camera,
}

/// Whether the file-level axis transform is the `+90 degrees` rotation about X (rather than
/// identity), for a file whose header declares `up_axis` (0 = X, 1 = Y, 2 = Z).
pub open spec fn file_axis_rotates(policy: AxisPolicy, up_axis: i32) -> bool {
    match policy {
        AxisPolicy::HeuristicVeto | AxisPolicy::ForceYUpRaw => up_axis != 0,
        AxisPolicy::HonourHeader => up_axis == 1,
        AxisPolicy::PassThrough => false,
    }
}

/// Whether the file-level axis transform rotates `+90 degrees` about X: assumed Y-up content
/// is rotated unless the header says X-up; an honoured header rotates only Y-up content; a
/// pass-through never rotates.
pub fn axis_rotates(policy: AxisPolicy, up_axis: i32) -> (r: bool)
    ensures
        r == file_axis_rotates(policy, up_axis),
{
    match policy {
        AxisPolicy::HeuristicVeto | AxisPolicy::ForceYUpRaw => up_axis != 0,
        AxisPolicy::HonourHeader => up_axis == 1,
        AxisPolicy::PassThrough => false,
    }
}

/// For one mesh leaf, whether the file-level axis transform is applied, and whether the veto
/// suppressed it. Only `HeuristicVeto` varies this per leaf: it vetoes when the cumulative
/// chain already lands +Y on +Z (`chain_lands_on_z`).
pub fn effective_axis(policy: AxisPolicy, chain_lands_on_z: bool) -> (r: (bool, bool))
    ensures
        r == (if policy == AxisPolicy::HeuristicVeto && chain_lands_on_z {
            (false, true)
        } else {
            (true, false)
        }),
{
    match policy {
        AxisPolicy::HeuristicVeto => {
            if chain_lands_on_z {
                (false, true)
            } else {
                (true, false)
            }
        },
        _ => (true, false),
    }
}

/// The joint names of a skeleton, as a set.
pub open spec fn name_set(js: Seq<Joint>) -> Set<Seq<char>> {
    Set::new(|n: Seq<char>| exists|k: int| 0 <= k < js.len() && (#[trigger] js[k]).name@ == n)
}

/// The name of a skeleton's first joint without a parent.
pub open spec fn root_name(js: Seq<Joint>) -> Option<Seq<char>> {
    root_from(js, 0)
}

/// The name of the first joint without a parent at or after `k`.
pub open spec fn root_from(js: Seq<Joint>, k: int) -> Option<Seq<char>>
    decreases js.len() - k,
{
    if k < 0 || k >= js.len() {
        None
    } else if js[k].parent is None {
        Some(js[k].name@)
    } else {
        root_from(js, k + 1)
    }
}

/// Whether a rig and a skeleton are the same armature: one's joint names lie within the
/// other's, and they share a root name.
pub open spec fn same_armature(rig: Seq<Joint>, sk: Seq<Joint>) -> bool {
    &&& (name_set(rig).subset_of(name_set(sk)) || name_set(sk).subset_of(name_set(rig)))
    &&& root_name(rig) is Some
    &&& root_name(rig) == root_name(sk)
}

/// The first skeleton at or after `k` that is the same armature as the rig.
pub open spec fn first_armature(sks: Seq<Skeleton>, rig: Seq<Joint>, k: int) -> Option<int>
    decreases sks.len() - k,
{
    if k < 0 || k >= sks.len() {
        None
    } else if same_armature(rig, sks[k].joints@) {
        Some(k)
    } else {
        first_armature(sks, rig, k + 1)
    }
}

fn names_within(a: &Vec<Joint>, b: &Vec<Joint>) -> (r: bool)
    ensures
        r == name_set(a@).subset_of(name_set(b@)),
{
    let mut i: usize = 0;
    while i < a.len()
        invariant
            i <= a@.len(),
            forall|k: int| 0 <= k < i ==> name_set(b@).contains(#[trigger] a@[k].name@),
        decreases a@.len() - i,
    {
        let mut found = false;
        let mut j: usize = 0;
        while j < b.len()
            invariant
                j <= b@.len(),
                i < a@.len(),
                found ==> name_set(b@).contains(a@[i as int].name@),
                !found ==> forall|k: int| 0 <= k < j ==> (#[trigger] b@[k]).name@ != a@[i as int].name@,
            decreases b@.len() - j,
        {
            if a[i].name == b[j].name {
                assert(b@[j as int].name@ == a@[i as int].name@);
                found = true;
            }
            j = j + 1;
        }
        if !found {
            assert(!name_set(b@).contains(a@[i as int].name@));
            assert(name_set(a@).contains(a@[i as int].name@));
            return false;
        }
        i = i + 1;
    }
    assert forall|n: Seq<char>| name_set(a@).contains(n) implies name_set(b@).contains(n) by {
        let k = choose|k: int| 0 <= k < a@.len() && (#[trigger] a@[k]).name@ == n;
        assert(name_set(b@).contains(a@[k].name@));
    }
    true
}

fn root_of(js: &Vec<Joint>) -> (r: Option<usize>)
    ensures
        match root_name(js@) {
            Some(n) => r matches Some(k) && k < js@.len() && js@[k as int].name@ == n,
            None => r is None,
        },
{
    let mut k: usize = 0;
    while k < js.len()
        invariant
            k <= js@.len(),
            root_name(js@) == root_from(js@, k as int),
        decreases js@.len() - k,
    {
        if js[k].parent.is_none() {
            return Some(k);
        }
        k = k + 1;
    }
    None
}

fn same_armature_exec(rig: &Vec<Joint>, sk: &Vec<Joint>) -> (r: bool)
    ensures
        r == same_armature(rig@, sk@),
{
    let nested = names_within(rig, sk) || names_within(sk, rig);
    match (root_of(rig), root_of(sk)) {
        (Some(a), Some(b)) => nested && rig[a].name == sk[b].name,
        (Some(_), None) => false,
        (None, _) => false,
    }
}

/// Places a rig among the skeletons: the index of the first skeleton that is the same
/// armature (see [`same_armature`]), leaving the skeletons as they were; otherwise the rig is
/// appended and its new index returned.
pub fn find_or_insert_rig(skeletons: &mut Vec<Skeleton>, rig: Skeleton) -> (r: usize)
    ensures
        match first_armature(old(skeletons)@, rig.joints@, 0) {
            Some(k) => r == k && final(skeletons)@ == old(skeletons)@,
            None => r == old(skeletons)@.len() && final(skeletons)@ == old(skeletons)@.push(rig),
        },
{
    let mut i: usize = 0;
    while i < skeletons.len()
        invariant
            i <= skeletons@.len(),
            skeletons@ == old(skeletons)@,
            first_armature(skeletons@, rig.joints@, 0) == first_armature(skeletons@, rig.joints@, i as int),
        decreases skeletons@.len() - i,
    {
        if same_armature_exec(&rig.joints, &skeletons[i].joints) {
            return i;
        }
        i = i + 1;
    }
    let idx = skeletons.len();
    skeletons.push(rig);
    idx
}


/// The position of the first bone at or after `k` whose id is `id`.
pub open spec fn pos_from(bs: Seq<(i64, Option<i64>)>, id: i64, k: int) -> Option<int>
    decreases bs.len() - k,
{
    if k < 0 || k >= bs.len() {
        None
    } else if bs[k].0 == id {
        Some(k)
    } else {
        pos_from(bs, id, k + 1)
    }
}

/// The position of the bone with id `id`.
pub open spec fn pos_of(bs: Seq<(i64, Option<i64>)>, id: i64) -> Option<int> {
    pos_from(bs, id, 0)
}

/// The position of bone `k`'s parent, when it has one among the bones.
pub open spec fn parent_pos(bs: Seq<(i64, Option<i64>)>, k: int) -> Option<int> {
    match bs[k].1 {
        Some(p) => pos_of(bs, p),
        None => None,
    }
}

/// The number of bones not yet visited.
pub open spec fn unvisited(v: Seq<bool>) -> nat
    decreases v.len(),
{
    if v.len() == 0 {
        0
    } else {
        unvisited(v.drop_last()) + if v.last() {
            0nat
        } else {
            1nat
        }
    }
}

/// Marking an unvisited bone leaves one fewer unvisited.
pub proof fn lemma_unvisited_mark(v: Seq<bool>, k: int)
    requires
        0 <= k < v.len(),
        !v[k],
    ensures
        unvisited(v.update(k, true)) + 1 == unvisited(v),
    decreases v.len(),
{
    let w = v.update(k, true);
    if k == v.len() - 1 {
        assert(w.drop_last() =~= v.drop_last());
    } else {
        assert(w.drop_last() =~= v.drop_last().update(k, true));
        lemma_unvisited_mark(v.drop_last(), k);
    }
}

/// Visiting bone `k`: unless already visited, it is marked, its parent (when among the bones)
/// visited first, and its id emitted after everything its parent emitted. Gives the marks
/// and the ids emitted.
pub open spec fn visit(bs: Seq<(i64, Option<i64>)>, k: int, v: Seq<bool>) -> (Seq<bool>, Seq<i64>)
    decreases unvisited(v),
{
    if k < 0 || k >= v.len() || v[k] {
        (v, Seq::empty())
    } else {
        let v1 = v.update(k, true);
        proof {
            lemma_unvisited_mark(v, k);
        }
        match parent_pos(bs, k) {
            Some(p) => {
                let (v2, o) = visit(bs, p, v1);
                (v2, o.push(bs[k].0))
            },
            None => (v1, seq![bs[k].0]),
        }
    }
}

/// Visiting the bones with ids `seeds[0..n]` in turn.
pub open spec fn visit_seeds(bs: Seq<(i64, Option<i64>)>, seeds: Seq<i64>, n: nat) -> (Seq<bool>, Seq<i64>)
    decreases n,
{
    if n == 0 {
        (Seq::new(bs.len(), |i: int| false), Seq::empty())
    } else {
        let (v, o) = visit_seeds(bs, seeds, (n - 1) as nat);
        let k = match pos_of(bs, seeds[n - 1]) {
            Some(q) => q,
            None => -1,
        };
        let (v2, o2) = visit(bs, k, v);
        (v2, o + o2)
    }
}

/// Ascending with no value twice.
pub open spec fn strictly_ascending(s: Seq<i64>) -> bool {
    forall|a: int, b: int| 0 <= a < b < s.len() ==> s[a] < s[b]
}

/// The bone ids, each once.
pub open spec fn distinct_ids(bs: Seq<(i64, Option<i64>)>) -> bool {
    forall|a: int, b: int| 0 <= a < b < bs.len() ==> bs[a].0 != bs[b].0
}

/// `g` lists the bone ids in ascending order.
pub open spec fn sorted_ids_are(g: Seq<i64>, bs: Seq<(i64, Option<i64>)>) -> bool {
    strictly_ascending(g) && forall|x: i64| g.contains(x) <==> exists|k: int| 0 <= k < bs.len() && (#[trigger] bs[k]).0 == x
}

/// The bone ids in ascending order.
pub open spec fn sorted_ids(bs: Seq<(i64, Option<i64>)>) -> Seq<i64> {
    choose|g: Seq<i64>| sorted_ids_are(g, bs)
}

/// The joint order of a bone set: bones are visited in ascending id order, each bringing its
/// not-yet-emitted ancestors first.
pub open spec fn topo_order(bs: Seq<(i64, Option<i64>)>) -> Seq<i64> {
    visit_seeds(bs, sorted_ids(bs), bs.len()).1
}

/// The ids of the bones, in listed order.
pub open spec fn bone_ids(bs: Seq<(i64, Option<i64>)>) -> Seq<i64> {
    Seq::new(bs.len(), |j: int| bs[j].0)
}

/// The bone ids sorted without descending steps are the ascending id list.
proof fn lemma_sorted_ids_are(bs: Seq<(i64, Option<i64>)>, g: Seq<i64>)
    requires
        distinct_ids(bs),
        forall|a: int, b: int| 0 <= a < b < g.len() ==> g[a] <= g[b],
        g.to_multiset() == bone_ids(bs).to_multiset(),
    ensures
        sorted_ids_are(g, bs),
        sorted_ids_are(sorted_ids(bs), bs),
{
    let unsorted = bone_ids(bs);
    vstd::seq_lib::to_multiset_len(g);
    vstd::seq_lib::to_multiset_len(unsorted);
    assert forall|a: int, b: int| 0 <= a < b < g.len() implies g[a] < g[b] by {
        if g[a] == g[b] {
            vstd::seq_lib::to_multiset_contains(g, g[a]);
            let x = g[a];
            assert(g.remove(a).contains(x)) by {
                assert(g.remove(a)[b - 1] == x);
            }
            vstd::seq_lib::to_multiset_contains(g.remove(a), x);
            vstd::seq_lib::to_multiset_remove(g, a);
            assert(unsorted.to_multiset().count(x) >= 2);
            lemma_distinct_count(bs, unsorted, x);
        }
    }
    assert forall|x: i64| g.contains(x) <==> exists|k: int| 0 <= k < bs.len() && (#[trigger] bs[k]).0 == x by {
        vstd::seq_lib::to_multiset_contains(g, x);
        vstd::seq_lib::to_multiset_contains(unsorted, x);
        if unsorted.contains(x) {
            let t = choose|t: int| 0 <= t < unsorted.len() && unsorted[t] == x;
            assert(bs[t].0 == x);
        }
        if exists|k: int| 0 <= k < bs.len() && (#[trigger] bs[k]).0 == x {
            let t = choose|t: int| 0 <= t < bs.len() && (#[trigger] bs[t]).0 == x;
            assert(unsorted[t] == x);
        }
    }
    assert(sorted_ids_are(g, bs));
}

/// `slice::sort_unstable`: sorts the ids into ascending order.
#[verifier::external_body]
fn sort_ids(v: &mut Vec<i64>)
    ensures
        forall|a: int, b: int| 0 <= a < b < final(v)@.len() ==> final(v)@[a] <= final(v)@[b],
        final(v)@.to_multiset() == old(v)@.to_multiset(),
{
    v.sort_unstable();
}

proof fn lemma_same_sorted(a: Seq<i64>, b: Seq<i64>)
    requires
        strictly_ascending(a),
        strictly_ascending(b),
        forall|x: i64| a.contains(x) <==> b.contains(x),
    ensures
        a == b,
    decreases a.len() + b.len(),
{
    if a.len() == 0 || b.len() == 0 {
        if a.len() > 0 {
            assert(a.contains(a[0]));
        }
        if b.len() > 0 {
            assert(b.contains(b[0]));
        }
        assert(a =~= b);
    } else {
        let (x, y) = (a.last(), b.last());
        assert(a.contains(x));
        assert(b.contains(y));
        let i = choose|i: int| 0 <= i < b.len() && b[i] == x;
        let j = choose|j: int| 0 <= j < a.len() && a[j] == y;
        assert(x == y) by {
            if i < b.len() - 1 {
                assert(b[i] < y);
                assert(a[j] <= x);
            }
            if j < a.len() - 1 {
                assert(a[j] < x);
                assert(b[i] <= y);
            }
        }
        let (a2, b2) = (a.drop_last(), b.drop_last());
        assert forall|z: i64| a2.contains(z) <==> b2.contains(z) by {
            if a2.contains(z) {
                let t = choose|t: int| 0 <= t < a2.len() && a2[t] == z;
                assert(a[t] < x);
                assert(a.contains(z));
                let u = choose|u: int| 0 <= u < b.len() && b[u] == z;
                if u == b.len() - 1 {
                    assert(false);
                }
                assert(b2[u] == z);
            }
            if b2.contains(z) {
                let t = choose|t: int| 0 <= t < b2.len() && b2[t] == z;
                assert(b[t] < y);
                assert(b.contains(z));
                let u = choose|u: int| 0 <= u < a.len() && a[u] == z;
                if u == a.len() - 1 {
                    assert(false);
                }
                assert(a2[u] == z);
            }
        }
        lemma_same_sorted(a2, b2);
        assert(a =~= a2.push(x));
        assert(b =~= b2.push(y));
    }
}

fn position_of_id(bs: &[(i64, Option<i64>)], id: i64) -> (r: Option<usize>)
    ensures
        match pos_of(bs@, id) {
            Some(k) => r == Some(k as usize) && 0 <= k < bs@.len(),
            None => r is None,
        },
{
    let mut k: usize = 0;
    while k < bs.len()
        invariant
            k <= bs@.len(),
            pos_of(bs@, id) == pos_from(bs@, id, k as int),
        decreases bs@.len() - k,
    {
        if bs[k].0 == id {
            return Some(k);
        }
        k = k + 1;
    }
    None
}

fn visit_bone(bs: &[(i64, Option<i64>)], parents: &Vec<Option<usize>>, k: usize, visited: &mut Vec<bool>, out: &mut Vec<i64>)
    requires
        parents@.len() == bs@.len(),
        old(visited)@.len() == bs@.len(),
        forall|j: int| 0 <= j < bs@.len() ==> match parent_pos(bs@, j) {
            Some(p) => (#[trigger] parents@[j]) == Some(p as usize),
            None => parents@[j] is None,
        },
        forall|j: int| 0 <= j < bs@.len() ==> (#[trigger] parent_pos(bs@, j) matches Some(p) ==> 0 <= p < bs@.len()),
    ensures
        final(visited)@ == visit(bs@, k as int, old(visited)@).0,
        final(out)@ == old(out)@ + visit(bs@, k as int, old(visited)@).1,
    decreases unvisited(old(visited)@),
{
    if k >= visited.len() || visited[k] {
        assert(old(out)@ + Seq::<i64>::empty() =~= old(out)@);
        return ;
    }
    proof {
        lemma_unvisited_mark(visited@, k as int);
    }
    visited.set(k, true);
    assert(parents@[k as int] == match parent_pos(bs@, k as int) {
        Some(p) => Some(p as usize),
        None => None::<usize>,
    });
    match parents[k] {
        Some(p) => {
            let ghost before = out@;
            visit_bone(bs, parents, p, visited, out);
            out.push(bs[k].0);
            assert(out@ =~= old(out)@ + visit(bs@, k as int, old(visited)@).1);
        },
        None => {
            out.push(bs[k].0);
            assert(out@ =~= old(out)@ + visit(bs@, k as int, old(visited)@).1);
        },
    }
}

/// The joint order of the bones `bones` (pairs of id and parent id, every id once): bones
/// are taken in ascending id order, and each is preceded by its ancestors not yet placed (see
/// [`topo_order`]), so the order does not depend on how the bones were listed.
pub fn topo_sort(bones: &[(i64, Option<i64>)]) -> (r: Vec<i64>)
    requires
        distinct_ids(bones@),
    ensures
        r@ == topo_order(bones@),
{
    let n = bones.len();
    let mut parents: Vec<Option<usize>> = Vec::new();
    let mut k: usize = 0;
    while k < n
        invariant
            n == bones@.len(),
            k <= n,
            parents@.len() == k,
            forall|j: int| 0 <= j < k ==> match parent_pos(bones@, j) {
                Some(p) => (#[trigger] parents@[j]) == Some(p as usize),
                None => parents@[j] is None,
            },
            forall|j: int| 0 <= j < k ==> (#[trigger] parent_pos(bones@, j) matches Some(p) ==> 0 <= p < bones@.len()),
        decreases n - k,
    {
        let p = match bones[k].1 {
            Some(pid) => position_of_id(bones, pid),
            None => None,
        };
        parents.push(p);
        k = k + 1;
    }
    let mut ids: Vec<i64> = Vec::new();
    let mut k: usize = 0;
    while k < n
        invariant
            n == bones@.len(),
            k <= n,
            ids@.len() == k,
            forall|j: int| 0 <= j < k ==> #[trigger] ids@[j] == bones@[j].0,
        decreases n - k,
    {
        ids.push(bones[k].0);
        k = k + 1;
    }
    let ghost unsorted = ids@;
    sort_ids(&mut ids);
    proof {
        vstd::seq_lib::to_multiset_len(ids@);
        vstd::seq_lib::to_multiset_len(unsorted);
        assert(unsorted =~= bone_ids(bones@));
        lemma_sorted_ids_are(bones@, ids@);
        lemma_same_sorted(sorted_ids(bones@), ids@);
    }
    let mut visited: Vec<bool> = Vec::new();
    let mut k: usize = 0;
    while k < n
        invariant
            k <= n,
            visited@ =~= Seq::new(k as nat, |i: int| false),
        decreases n - k,
    {
        visited.push(false);
        k = k + 1;
    }
    let mut out: Vec<i64> = Vec::new();
    let mut s: usize = 0;
    while s < n
        invariant
            n == bones@.len(),
            ids@ == sorted_ids(bones@),
            ids@.len() == n,
            s <= n,
            parents@.len() == n,
            forall|j: int| 0 <= j < n ==> match parent_pos(bones@, j) {
                Some(p) => (#[trigger] parents@[j]) == Some(p as usize),
                None => parents@[j] is None,
            },
            forall|j: int| 0 <= j < n ==> (#[trigger] parent_pos(bones@, j) matches Some(p) ==> 0 <= p < bones@.len()),
            visited@.len() == n,
            (visited@, out@) == visit_seeds(bones@, ids@, s as nat),
        decreases n - s,
    {
        let ghost v0 = visited@;
        let ghost o0 = out@;
        match position_of_id(bones, ids[s]) {
            Some(k) => {
                visit_bone(bones, &parents, k, &mut visited, &mut out);
            },
            None => {
                assert(visit(bones@, -1, v0) == (v0, Seq::<i64>::empty()));
                assert(o0 + Seq::<i64>::empty() =~= o0);
            },
        }
        proof {
            lemma_visit_len(bones@, match pos_of(bones@, ids@[s as int]) {
                Some(q) => q,
                None => -1,
            }, v0);
        }
        s = s + 1;
    }
    out
}

proof fn lemma_visit_len(bs: Seq<(i64, Option<i64>)>, k: int, v: Seq<bool>)
    ensures
        visit(bs, k, v).0.len() == v.len(),
    decreases unvisited(v),
{
    if !(k < 0 || k >= v.len() || v[k]) {
        lemma_unvisited_mark(v, k);
        let v1 = v.update(k, true);
        match parent_pos(bs, k) {
            Some(p) => lemma_visit_len(bs, p, v1),
            None => {},
        }
    }
}

proof fn lemma_distinct_count(bs: Seq<(i64, Option<i64>)>, ids: Seq<i64>, x: i64)
    requires
        distinct_ids(bs),
        ids.len() == bs.len(),
        forall|j: int| 0 <= j < ids.len() ==> #[trigger] ids[j] == bs[j].0,
    ensures
        ids.to_multiset().count(x) <= 1,
    decreases ids.len(),
{
    vstd::seq_lib::to_multiset_contains(ids, x);
    if ids.len() > 0 {
        let bs2 = bs.drop_last();
        let ids2 = ids.drop_last();
        lemma_distinct_count(bs2, ids2, x);
        vstd::seq_lib::to_multiset_build(ids2, ids.last());
        assert(ids =~= ids2.push(ids.last()));
        if ids.last() == x {
            vstd::seq_lib::to_multiset_contains(ids2, x);
            if ids2.contains(x) {
                let t = choose|t: int| 0 <= t < ids2.len() && ids2[t] == x;
                assert(bs[t].0 == bs[bs.len() - 1].0);
            }
        }
    }
}

/// Bone `a` is reached from bone `j` by following parent links at least once and at most
/// `f` times.
pub open spec fn ancestor_within(bs: Seq<(i64, Option<i64>)>, a: int, j: int, f: nat) -> bool
    decreases f,
{
    if f == 0 {
        false
    } else {
        match parent_pos(bs, j) {
            Some(p) => p == a || ancestor_within(bs, a, p, (f - 1) as nat),
            None => false,
        }
    }
}

/// No bone is its own ancestor.
pub open spec fn acyclic_bones(bs: Seq<(i64, Option<i64>)>) -> bool {
    forall|j: int, f: nat| 0 <= j < bs.len() ==> !#[trigger] ancestor_within(bs, j, j, f)
}

/// A visit from marks `v` to `v2` emitting `o`: marks only grow, and `o` holds, each once,
/// exactly the ids of the bones it newly marked.
pub open spec fn marks_ok(bs: Seq<(i64, Option<i64>)>, v: Seq<bool>, v2: Seq<bool>, o: Seq<i64>) -> bool {
    &&& v.len() == bs.len()
    &&& v2.len() == bs.len()
    &&& forall|i: int| 0 <= i < v.len() && #[trigger] v[i] ==> v2[i]
    &&& forall|q: int|
        0 <= q < o.len() ==> (pos_of(bs, #[trigger] o[q]) matches Some(m) && 0 <= m < bs.len() && bs[m].0 == o[q] && v2[m]
            && !v[m])
    &&& forall|a: int, b: int| 0 <= a < b < o.len() ==> o[a] != o[b]
    &&& forall|m: int| 0 <= m < bs.len() && v2[m] && !v[m] ==> #[trigger] o.contains(bs[m].0)
}

/// Every bone `o` emits has its parent (when among the bones) marked in `v` outside `s`, or
/// emitted before it.
pub open spec fn placed(bs: Seq<(i64, Option<i64>)>, v: Seq<bool>, o: Seq<i64>, s: Set<int>) -> bool {
    forall|q: int|
        0 <= q < o.len() ==> match pos_of(bs, #[trigger] o[q]) {
            Some(m) => match parent_pos(bs, m) {
                Some(pp) => (v[pp] && !s.contains(pp)) || exists|i: int| 0 <= i < q && o[i] == bs[pp].0,
                None => true,
            },
            None => true,
        }
}

proof fn lemma_pos_from(bs: Seq<(i64, Option<i64>)>, id: i64, k: int)
    requires
        0 <= k,
    ensures
        pos_from(bs, id, k) matches Some(m) ==> k <= m < bs.len() && bs[m].0 == id,
        distinct_ids(bs) ==> forall|m: int| k <= m < bs.len() && bs[m].0 == id ==> pos_from(bs, id, k) == Some(m),
    decreases bs.len() - k,
{
    if k < bs.len() {
        lemma_pos_from(bs, id, k + 1);
    }
}

proof fn lemma_ancestor_step(bs: Seq<(i64, Option<i64>)>, k: int, j: int, f: nat, p: int)
    requires
        ancestor_within(bs, k, j, f),
        parent_pos(bs, k) == Some(p),
    ensures
        ancestor_within(bs, p, j, f + 1),
    decreases f,
{
    let q = parent_pos(bs, j)->0;
    if q != k {
        lemma_ancestor_step(bs, k, q, (f - 1) as nat, p);
    } else {
        assert(ancestor_within(bs, p, k, f));
    }
}

/// Parent positions are positions of the parent's id.
proof fn lemma_parent_pos_range(bs: Seq<(i64, Option<i64>)>)
    ensures
        forall|m: int| #[trigger] parent_pos(bs, m) is Some ==> 0 <= parent_pos(bs, m)->0 < bs.len() && bs[parent_pos(bs, m)->0].0
            == bs[m].1->0,
{
    assert forall|m: int| #[trigger] parent_pos(bs, m) is Some implies 0 <= parent_pos(bs, m)->0 < bs.len()
        && bs[parent_pos(bs, m)->0].0 == bs[m].1->0 by {
        lemma_pos_from(bs, bs[m].1->0, 0);
    }
}

proof fn lemma_visit_marks(bs: Seq<(i64, Option<i64>)>, k: int, v: Seq<bool>)
    requires
        distinct_ids(bs),
        v.len() == bs.len(),
    ensures
        marks_ok(bs, v, visit(bs, k, v).0, visit(bs, k, v).1),
        0 <= k < bs.len() ==> visit(bs, k, v).0[k],
    decreases unvisited(v),
{
    if !(k < 0 || k >= v.len() || v[k]) {
        let v1 = v.update(k, true);
        lemma_unvisited_mark(v, k);
        lemma_pos_from(bs, bs[k].0, 0);
        match parent_pos(bs, k) {
            Some(p) => {
                lemma_visit_marks(bs, p, v1);
                let (v2, o1) = visit(bs, p, v1);
                let o = o1.push(bs[k].0);
                assert(v1[k]);
                assert(v2[k]);
                assert forall|i: int| 0 <= i < v.len() && #[trigger] v[i] implies v2[i] by {
                    assert(v1[i]);
                }
                assert forall|q: int| 0 <= q < o.len() implies (pos_of(bs, #[trigger] o[q]) matches Some(m) && 0 <= m < bs.len()
                    && bs[m].0 == o[q] && v2[m] && !v[m]) by {
                    if q < o1.len() {
                        assert(o[q] == o1[q]);
                    }
                }
                assert forall|a: int, b: int| 0 <= a < b < o.len() implies o[a] != o[b] by {
                    if b == o1.len() {
                        assert(o[a] == o1[a]);
                        let m = pos_of(bs, o1[a])->0;
                        assert(v1[k]);
                    } else {
                        assert(o[a] == o1[a] && o[b] == o1[b]);
                    }
                }
                assert forall|m: int| 0 <= m < bs.len() && v2[m] && !v[m] implies #[trigger] o.contains(bs[m].0) by {
                    if m == k {
                        assert(o[o1.len() as int] == bs[k].0);
                    } else {
                        assert(!v1[m]);
                        assert(o1.contains(bs[m].0));
                        let t = choose|t: int| 0 <= t < o1.len() && o1[t] == bs[m].0;
                        assert(o[t] == bs[m].0);
                    }
                }
            },
            None => {
                let o = seq![bs[k].0];
                assert forall|m: int| 0 <= m < bs.len() && v1[m] && !v[m] implies #[trigger] o.contains(bs[m].0) by {
                    assert(m == k);
                    assert(o[0] == bs[m].0);
                }
            },
        }
    }
}

proof fn lemma_visit_placed(bs: Seq<(i64, Option<i64>)>, k: int, v: Seq<bool>, s: Set<int>)
    requires
        distinct_ids(bs),
        acyclic_bones(bs),
        v.len() == bs.len(),
        forall|j: int| #[trigger] s.contains(j) ==> 0 <= j < bs.len() && v[j] && exists|f: nat| ancestor_within(bs, k, j, f),
    ensures
        placed(bs, v, visit(bs, k, v).1, s),
    decreases unvisited(v),
{
    lemma_parent_pos_range(bs);
    if !(k < 0 || k >= v.len() || v[k]) {
        let v1 = v.update(k, true);
        lemma_unvisited_mark(v, k);
        lemma_pos_from(bs, bs[k].0, 0);
        match parent_pos(bs, k) {
            Some(p) => {
                lemma_pos_from(bs, bs[k].1->0, 0);
                let s1 = s.insert(k);
                assert forall|j: int| #[trigger] s1.contains(j) implies 0 <= j < bs.len() && v1[j] && exists|f: nat|
                    ancestor_within(bs, p, j, f) by {
                    if j == k {
                        assert(ancestor_within(bs, p, k, 1));
                    } else {
                        let f = choose|f: nat| ancestor_within(bs, k, j, f);
                        lemma_ancestor_step(bs, k, j, f, p);
                    }
                }
                lemma_visit_placed(bs, p, v1, s1);
                lemma_visit_marks(bs, p, v1);
                let (v2, o1) = visit(bs, p, v1);
                let o = o1.push(bs[k].0);
                assert forall|q: int| 0 <= q < o.len() implies match pos_of(bs, #[trigger] o[q]) {
                    Some(m) => match parent_pos(bs, m) {
                        Some(pp) => (v[pp] && !s.contains(pp)) || exists|i: int| 0 <= i < q && o[i] == bs[pp].0,
                        None => true,
                    },
                    None => true,
                } by {
                    if q < o1.len() {
                        assert(o[q] == o1[q]);
                        if let Some(m) = pos_of(bs, o1[q]) {
                            if let Some(pp) = parent_pos(bs, m) {
                                if exists|i: int| 0 <= i < q && o1[i] == bs[pp].0 {
                                    let i = choose|i: int| 0 <= i < q && o1[i] == bs[pp].0;
                                    assert(o[i] == o1[i]);
                                }
                            }
                        }
                    } else {
                        assert(pos_of(bs, o[q]) == Some(k));
                        if !v1[p] {
                            assert(v2[p]);
                            assert(o1.contains(bs[p].0));
                            let i = choose|i: int| 0 <= i < o1.len() && o1[i] == bs[p].0;
                            assert(o[i] == bs[p].0);
                        } else {
                            if p == k {
                                assert(ancestor_within(bs, k, k, 1));
                            }
                            if s.contains(p) {
                                let f = choose|f: nat| ancestor_within(bs, k, p, f);
                                assert(ancestor_within(bs, k, k, f + 1));
                            }
                        }
                    }
                }
            },
            None => {},
        }
    }
}

/// The marks of a visit from nothing marked.
pub open spec fn no_marks(bs: Seq<(i64, Option<i64>)>) -> Seq<bool> {
    Seq::new(bs.len(), |i: int| false)
}

proof fn lemma_seeds(bs: Seq<(i64, Option<i64>)>, seeds: Seq<i64>, n: nat)
    requires
        distinct_ids(bs),
        n <= seeds.len(),
    ensures
        marks_ok(bs, no_marks(bs), visit_seeds(bs, seeds, n).0, visit_seeds(bs, seeds, n).1),
        forall|t: int| 0 <= t < n ==> (pos_of(bs, #[trigger] seeds[t]) matches Some(m) ==> visit_seeds(bs, seeds, n).0[m]),
        acyclic_bones(bs) ==> placed(bs, no_marks(bs), visit_seeds(bs, seeds, n).1, Set::empty()),
    decreases n,
{
    lemma_parent_pos_range(bs);
    let none = no_marks(bs);
    if n == 0 {
        assert(visit_seeds(bs, seeds, 0).0 =~= none);
    } else {
        lemma_seeds(bs, seeds, (n - 1) as nat);
        let (v0, o0) = visit_seeds(bs, seeds, (n - 1) as nat);
        let k = match pos_of(bs, seeds[n - 1]) {
            Some(q) => q,
            None => -1,
        };
        lemma_pos_from(bs, seeds[n - 1], 0);
        lemma_visit_marks(bs, k, v0);
        let (v1, o1) = visit(bs, k, v0);
        let o = o0 + o1;
        assert forall|q: int| 0 <= q < o.len() implies (pos_of(bs, #[trigger] o[q]) matches Some(m) && 0 <= m < bs.len()
            && bs[m].0 == o[q] && v1[m] && !none[m]) by {
            if q < o0.len() {
                assert(o[q] == o0[q]);
            } else {
                assert(o[q] == o1[q - o0.len()]);
            }
        }
        assert forall|a: int, b: int| 0 <= a < b < o.len() implies o[a] != o[b] by {
            if b < o0.len() {
                assert(o[a] == o0[a] && o[b] == o0[b]);
            } else if a >= o0.len() {
                assert(o[a] == o1[a - o0.len()] && o[b] == o1[b - o0.len()]);
            } else {
                assert(o[a] == o0[a] && o[b] == o1[b - o0.len()]);
                let ma = pos_of(bs, o0[a])->0;
                assert(v0[ma]);
            }
        }
        assert forall|m: int| 0 <= m < bs.len() && v1[m] && !none[m] implies #[trigger] o.contains(bs[m].0) by {
            if v0[m] {
                assert(o0.contains(bs[m].0));
                let t = choose|t: int| 0 <= t < o0.len() && o0[t] == bs[m].0;
                assert(o[t] == bs[m].0);
            } else {
                assert(o1.contains(bs[m].0));
                let t = choose|t: int| 0 <= t < o1.len() && o1[t] == bs[m].0;
                assert(o[o0.len() + t] == bs[m].0);
            }
        }
        assert forall|t: int| 0 <= t < n implies (pos_of(bs, #[trigger] seeds[t]) matches Some(m) ==> v1[m]) by {
            lemma_pos_from(bs, seeds[t], 0);
            if t < n - 1 {
                if let Some(m) = pos_of(bs, seeds[t]) {
                    assert(v0[m]);
                }
            }
        }
        if acyclic_bones(bs) {
            lemma_visit_placed(bs, k, v0, Set::empty());
            assert forall|q: int| 0 <= q < o.len() implies match pos_of(bs, #[trigger] o[q]) {
                Some(m) => match parent_pos(bs, m) {
                    Some(pp) => (none[pp] && !Set::<int>::empty().contains(pp)) || exists|i: int| 0 <= i < q && o[i] == bs[pp].0,
                    None => true,
                },
                None => true,
            } by {
                if q < o0.len() {
                    assert(o[q] == o0[q]);
                    if let Some(m) = pos_of(bs, o0[q]) {
                        if let Some(pp) = parent_pos(bs, m) {
                            let i = choose|i: int| 0 <= i < q && o0[i] == bs[pp].0;
                            assert(o[i] == o0[i]);
                        }
                    }
                } else {
                    let q1 = q - o0.len();
                    assert(o[q] == o1[q1]);
                    if let Some(m) = pos_of(bs, o1[q1]) {
                        if let Some(pp) = parent_pos(bs, m) {
                            if exists|i: int| 0 <= i < q1 && o1[i] == bs[pp].0 {
                                let i = choose|i: int| 0 <= i < q1 && o1[i] == bs[pp].0;
                                assert(o[o0.len() + i] == bs[pp].0);
                            } else {
                                assert(v0[pp]);
                                lemma_pos_from(bs, bs[m].1->0, 0);
                                assert(o0.contains(bs[pp].0));
                                let i = choose|i: int| 0 <= i < o0.len() && o0[i] == bs[pp].0;
                                assert(o[i] == bs[pp].0);
                            }
                        }
                    }
                }
            }
        }
    }
}

/// The joint order of a bone set lists every bone's id exactly once and nothing else; and
/// when no bone is its own ancestor, every bone's parent (when among the bones) comes before
/// it.
pub proof fn lemma_topo_order_laws(bs: Seq<(i64, Option<i64>)>)
    requires
        distinct_ids(bs),
    ensures
        forall|m: int| 0 <= m < bs.len() ==> #[trigger] topo_order(bs).contains(bs[m].0),
        forall|q: int| 0 <= q < topo_order(bs).len() ==> exists|m: int| 0 <= m < bs.len() && bs[m].0 == #[trigger] topo_order(bs)[q],
        forall|a: int, b: int| 0 <= a < b < topo_order(bs).len() ==> topo_order(bs)[a] != topo_order(bs)[b],
        acyclic_bones(bs) ==> forall|q: int, m: int|
            #![trigger topo_order(bs)[q], bs[m]]
            0 <= q < topo_order(bs).len() && 0 <= m < bs.len() && bs[m].0 == topo_order(bs)[q] && parent_pos(bs, m) is Some
                ==> exists|i: int| 0 <= i < q && topo_order(bs)[i] == bs[parent_pos(bs, m)->0].0,
{
    lemma_parent_pos_range(bs);
    let leq = |a: i64, b: i64| a <= b;
    assert(vstd::relations::total_ordering(leq));
    bone_ids(bs).lemma_sort_by_ensures(leq);
    let g = bone_ids(bs).sort_by(leq);
    assert forall|a: int, b: int| 0 <= a < b < g.len() implies g[a] <= g[b] by {
        assert(leq(g[a], g[b]));
    }
    lemma_sorted_ids_are(bs, g);
    lemma_same_sorted(sorted_ids(bs), g);
    vstd::seq_lib::to_multiset_len(g);
    vstd::seq_lib::to_multiset_len(bone_ids(bs));
    let seeds = sorted_ids(bs);
    let n = bs.len();
    lemma_seeds(bs, seeds, n);
    let (v, o) = visit_seeds(bs, seeds, n);
    assert forall|m: int| 0 <= m < bs.len() implies #[trigger] o.contains(bs[m].0) by {
        assert(seeds.contains(bs[m].0));
        let t = choose|t: int| 0 <= t < seeds.len() && seeds[t] == bs[m].0;
        lemma_pos_from(bs, bs[m].0, 0);
        assert(v[m]);
    }
    assert forall|q: int| 0 <= q < o.len() implies exists|m: int| 0 <= m < bs.len() && bs[m].0 == #[trigger] o[q] by {
        let m = pos_of(bs, o[q])->0;
        assert(bs[m].0 == o[q]);
    }
    if acyclic_bones(bs) {
        assert forall|q: int, m: int|
            #![trigger o[q], bs[m]]
            0 <= q < o.len() && 0 <= m < bs.len() && bs[m].0 == o[q] && parent_pos(bs, m) is Some implies exists|i: int|
            0 <= i < q && o[i] == bs[parent_pos(bs, m)->0].0 by {
            lemma_pos_from(bs, bs[m].0, 0);
            assert(pos_of(bs, o[q]) == Some(m));
        }
    }
}

/// Two listings hold the same bones (each bone of either is one of the other's).
pub open spec fn same_bones(bs: Seq<(i64, Option<i64>)>, bs2: Seq<(i64, Option<i64>)>) -> bool {
    &&& forall|i: int| 0 <= i < bs.len() ==> bs2.contains(#[trigger] bs[i])
    &&& forall|j: int| 0 <= j < bs2.len() ==> bs.contains(#[trigger] bs2[j])
}

/// Where listing `bs2` holds the bone at position `i` of `bs`.
pub open spec fn moved(bs: Seq<(i64, Option<i64>)>, bs2: Seq<(i64, Option<i64>)>, i: int) -> int {
    match pos_of(bs2, bs[i].0) {
        Some(j) => j,
        None => -1,
    }
}

/// Marks `w` over `bs2` are the marks `v` over `bs`, moved along with the bones.
pub open spec fn marks_match(bs: Seq<(i64, Option<i64>)>, bs2: Seq<(i64, Option<i64>)>, v: Seq<bool>, w: Seq<bool>) -> bool {
    &&& v.len() == bs.len()
    &&& w.len() == bs2.len()
    &&& forall|i: int| 0 <= i < bs.len() ==> v[i] == w[#[trigger] moved(bs, bs2, i)]
}

proof fn lemma_moved(bs: Seq<(i64, Option<i64>)>, bs2: Seq<(i64, Option<i64>)>)
    requires
        distinct_ids(bs),
        distinct_ids(bs2),
        same_bones(bs, bs2),
    ensures
        forall|i: int| 0 <= i < bs.len() ==> 0 <= #[trigger] moved(bs, bs2, i) < bs2.len() && bs2[moved(bs, bs2, i)] == bs[i],
        forall|i: int, k: int| 0 <= i < bs.len() && 0 <= k < bs.len() && i != k ==> moved(bs, bs2, i) != moved(bs, bs2, k),
        forall|id: i64| #[trigger] pos_of(bs, id) is None ==> pos_of(bs2, id) is None,
        forall|id: i64| #[trigger] pos_of(bs, id) is Some ==> pos_of(bs2, id) == Some(moved(bs, bs2, pos_of(bs, id)->0)),
{
    assert forall|i: int| 0 <= i < bs.len() implies 0 <= #[trigger] moved(bs, bs2, i) < bs2.len() && bs2[moved(bs, bs2, i)] == bs[i] by {
        let j = choose|j: int| 0 <= j < bs2.len() && bs2[j] == bs[i];
        lemma_pos_from(bs2, bs[i].0, 0);
        assert(pos_of(bs2, bs[i].0) == Some(j));
    }
    assert forall|id: i64| #[trigger] pos_of(bs, id) is None implies pos_of(bs2, id) is None by {
        lemma_pos_from(bs2, id, 0);
        lemma_pos_from(bs, id, 0);
        if let Some(j) = pos_of(bs2, id) {
            let i = choose|i: int| 0 <= i < bs.len() && bs[i] == bs2[j];
            assert(bs[i].0 == id);
        }
    }
    assert forall|id: i64| #[trigger] pos_of(bs, id) is Some implies pos_of(bs2, id) == Some(moved(bs, bs2, pos_of(bs, id)->0)) by {
        lemma_pos_from(bs, id, 0);
        let p = pos_of(bs, id)->0;
        let j = choose|j: int| 0 <= j < bs2.len() && bs2[j] == bs[p];
        lemma_pos_from(bs2, id, 0);
        assert(pos_of(bs2, id) == Some(j));
        lemma_pos_from(bs2, bs[p].0, 0);
    }
}

proof fn lemma_visit_moved(bs: Seq<(i64, Option<i64>)>, bs2: Seq<(i64, Option<i64>)>, k: int, v: Seq<bool>, w: Seq<bool>)
    requires
        distinct_ids(bs),
        distinct_ids(bs2),
        same_bones(bs, bs2),
        bs.len() == bs2.len(),
        marks_match(bs, bs2, v, w),
        -1 <= k < bs.len(),
    ensures
        marks_match(bs, bs2, visit(bs, k, v).0, visit(bs2, if k < 0 { -1 } else { moved(bs, bs2, k) }, w).0),
        visit(bs, k, v).1 == visit(bs2, if k < 0 { -1 } else { moved(bs, bs2, k) }, w).1,
    decreases unvisited(v),
{
    lemma_moved(bs, bs2);
    lemma_parent_pos_range(bs);
    if k >= 0 {
        let k2 = moved(bs, bs2, k);
        assert(v[k] == w[k2]);
        if !v[k] {
            let v1 = v.update(k, true);
            let w1 = w.update(k2, true);
            lemma_unvisited_mark(v, k);
            assert(marks_match(bs, bs2, v1, w1)) by {
                assert forall|i: int| 0 <= i < bs.len() implies v1[i] == w1[#[trigger] moved(bs, bs2, i)] by {
                    if i != k {
                        assert(moved(bs, bs2, i) != k2);
                    }
                }
            }
            assert(bs2[k2] == bs[k]);
            match parent_pos(bs, k) {
                Some(p) => {
                    assert(pos_of(bs2, bs[k].1->0) == Some(moved(bs, bs2, p)));
                    assert(parent_pos(bs2, k2) == Some(moved(bs, bs2, p)));
                    lemma_visit_moved(bs, bs2, p, v1, w1);
                },
                None => {
                    if bs[k].1 is Some {
                        assert(pos_of(bs, bs[k].1->0) is None);
                        assert(pos_of(bs2, bs[k].1->0) is None);
                    }
                    assert(parent_pos(bs2, k2) is None);
                },
            }
        }
    }
}

/// The order does not depend on how the bones are listed: two listings of the same bones
/// (every id once in each) give the same joint order.
pub proof fn lemma_topo_order_deterministic(bs: Seq<(i64, Option<i64>)>, bs2: Seq<(i64, Option<i64>)>)
    requires
        distinct_ids(bs),
        distinct_ids(bs2),
        same_bones(bs, bs2),
        bs.len() == bs2.len(),
    ensures
        topo_order(bs) == topo_order(bs2),
{
    lemma_moved(bs, bs2);
    let leq = |a: i64, b: i64| a <= b;
    assert(vstd::relations::total_ordering(leq));
    bone_ids(bs).lemma_sort_by_ensures(leq);
    let g = bone_ids(bs).sort_by(leq);
    assert forall|a: int, b: int| 0 <= a < b < g.len() implies g[a] <= g[b] by {
        assert(leq(g[a], g[b]));
    }
    lemma_sorted_ids_are(bs, g);
    bone_ids(bs2).lemma_sort_by_ensures(leq);
    let g2 = bone_ids(bs2).sort_by(leq);
    assert forall|a: int, b: int| 0 <= a < b < g2.len() implies g2[a] <= g2[b] by {
        assert(leq(g2[a], g2[b]));
    }
    lemma_sorted_ids_are(bs2, g2);
    assert forall|x: i64| sorted_ids(bs).contains(x) <==> sorted_ids(bs2).contains(x) by {
        if exists|k: int| 0 <= k < bs.len() && (#[trigger] bs[k]).0 == x {
            let k = choose|k: int| 0 <= k < bs.len() && (#[trigger] bs[k]).0 == x;
            assert(bs2[moved(bs, bs2, k)].0 == x);
        }
        if exists|k: int| 0 <= k < bs2.len() && (#[trigger] bs2[k]).0 == x {
            let j = choose|j: int| 0 <= j < bs2.len() && (#[trigger] bs2[j]).0 == x;
            assert(bs.contains(bs2[j]));
            let i = choose|i: int| 0 <= i < bs.len() && bs[i] == bs2[j];
            assert(bs[i].0 == x);
        }
    }
    lemma_same_sorted(sorted_ids(bs), sorted_ids(bs2));
    let seeds = sorted_ids(bs);
    lemma_seeds_moved(bs, bs2, seeds, bs.len());
}

proof fn lemma_seeds_moved(bs: Seq<(i64, Option<i64>)>, bs2: Seq<(i64, Option<i64>)>, seeds: Seq<i64>, n: nat)
    requires
        distinct_ids(bs),
        distinct_ids(bs2),
        same_bones(bs, bs2),
        bs.len() == bs2.len(),
    ensures
        marks_match(bs, bs2, visit_seeds(bs, seeds, n).0, visit_seeds(bs2, seeds, n).0),
        visit_seeds(bs, seeds, n).1 == visit_seeds(bs2, seeds, n).1,
    decreases n,
{
    lemma_moved(bs, bs2);
    if n > 0 {
        lemma_seeds_moved(bs, bs2, seeds, (n - 1) as nat);
        let (v, o) = visit_seeds(bs, seeds, (n - 1) as nat);
        let (w, o2) = visit_seeds(bs2, seeds, (n - 1) as nat);
        lemma_pos_from(bs, seeds[n - 1], 0);
        let k = match pos_of(bs, seeds[n - 1]) {
            Some(q) => q,
            None => -1,
        };
        lemma_visit_moved(bs, bs2, k, v, w);
    } else {
        assert(marks_match(bs, bs2, visit_seeds(bs, seeds, 0).0, visit_seeds(bs2, seeds, 0).0));
    }
}

/// The first position at or after `k` of id `x` in the joint order `o`.
pub open spec fn order_pos_from(o: Seq<i64>, x: i64, k: int) -> Option<int>
    decreases o.len() - k,
{
    if k < 0 || k >= o.len() {
        None
    } else if o[k] == x {
        Some(k)
    } else {
        order_pos_from(o, x, k + 1)
    }
}

proof fn lemma_order_pos_from(o: Seq<i64>, x: i64, k: int)
    requires
        0 <= k,
    ensures
        order_pos_from(o, x, k) matches Some(i) ==> k <= i < o.len() && o[i] == x,
        order_pos_from(o, x, k) is None ==> forall|i: int| k <= i < o.len() ==> o[i] != x,
        forall|i: int| k <= i < o.len() && o[i] == x && (forall|h: int| k <= h < i ==> o[h] != x)
            ==> order_pos_from(o, x, k) == Some(i),
    decreases o.len() - k,
{
    if k < o.len() {
        lemma_order_pos_from(o, x, k + 1);
    }
}

/// The joint index of the parent of joint `j`, for joints in order `o` of the bones `bs`: the
/// position in `o` of the parent id of the bone `o[j]` names, kept to 8 bits; none when the
/// bone has no parent or its parent is not among the joints.
pub open spec fn rig_parent(bs: Seq<(i64, Option<i64>)>, o: Seq<i64>, j: int) -> Option<u8> {
    match pos_of(bs, o[j]) {
        Some(m) => match bs[m].1 {
            Some(pid) => match order_pos_from(o, pid, 0) {
                Some(i) => Some(i as u8),
                None => None,
            },
            None => None,
        },
        None => None,
    }
}

/// The joints of a rig made of the bones `bones` (pairs of id and parent id, every id once):
/// their ids in joint order (see [`topo_order`]), and each joint's parent as a joint index
/// (see [`rig_parent`]).
pub fn rig_joint_parents(bones: &[(i64, Option<i64>)]) -> (r: (Vec<i64>, Vec<Option<u8>>))
    requires
        distinct_ids(bones@),
    ensures
        r.0@ == topo_order(bones@),
        r.1@.len() == r.0@.len(),
        forall|j: int| 0 <= j < r.1@.len() ==> #[trigger] r.1@[j] == rig_parent(bones@, r.0@, j),
{
    let order = topo_sort(bones);
    let mut parents: Vec<Option<u8>> = Vec::new();
    let mut j: usize = 0;
    while j < order.len()
        invariant
            j <= order@.len(),
            parents@.len() == j,
            forall|h: int| 0 <= h < j ==> #[trigger] parents@[h] == rig_parent(bones@, order@, h),
        decreases order@.len() - j,
    {
        let p = match position_of_id(bones, order[j]) {
            Some(m) => match bones[m].1 {
                Some(pid) => {
                    let mut i: usize = 0;
                    let mut found: Option<u8> = None;
                    proof {
                        lemma_order_pos_from(order@, pid, 0);
                    }
                    while i < order.len()
                        invariant
                            i <= order@.len(),
                            found is None ==> order_pos_from(order@, pid, 0) == order_pos_from(order@, pid, i as int),
                            found matches Some(v) ==> order_pos_from(order@, pid, 0) matches Some(q) && v == q as u8,
                        decreases order@.len() - i,
                    {
                        if found.is_none() && order[i] == pid {
                            found = Some(i as u8);
                        }
                        i = i + 1;
                    }
                    found
                },
                None => None,
            },
            None => None,
        };
        parents.push(p);
        j = j + 1;
    }
    (order, parents)
}

proof fn lemma_topo_order_len(bs: Seq<(i64, Option<i64>)>)
    requires
        distinct_ids(bs),
    ensures
        topo_order(bs).len() <= bs.len(),
{
    let o = topo_order(bs);
    lemma_topo_order_laws(bs);
    let ids = bone_ids(bs);
    assert(o.no_duplicates());
    o.unique_seq_to_set();
    ids.lemma_cardinality_of_set();
    assert forall|x: i64| o.to_set().contains(x) implies ids.to_set().contains(x) by {
        let q = choose|q: int| 0 <= q < o.len() && o[q] == x;
        let m = choose|m: int| 0 <= m < bs.len() && bs[m].0 == #[trigger] o[q];
        assert(ids[m] == x);
    }
    vstd::set_lib::lemma_len_subset(o.to_set(), ids.to_set());
}

/// In a rig of at most 256 bones where no bone is its own ancestor, a joint whose bone has a
/// parent among the bones names it as its parent, and every parent joint comes before its
/// child.
pub proof fn lemma_rig_parents_first(bs: Seq<(i64, Option<i64>)>)
    requires
        distinct_ids(bs),
        acyclic_bones(bs),
        bs.len() <= 256,
    ensures
        forall|j: int|
            0 <= j < topo_order(bs).len() ==> (#[trigger] rig_parent(bs, topo_order(bs), j) matches Some(p) ==> p < j),
        forall|j: int, m: int|
            0 <= j < topo_order(bs).len() && 0 <= m < bs.len() && bs[m].0 == topo_order(bs)[j] && parent_pos(bs, m) is Some
                ==> (#[trigger] rig_parent(bs, topo_order(bs), j)) is Some && #[trigger] bs[m].1 is Some,
{
    let o = topo_order(bs);
    lemma_topo_order_laws(bs);
    lemma_topo_order_len(bs);
    assert forall|j: int| 0 <= j < o.len() implies (#[trigger] rig_parent(bs, o, j) matches Some(p) ==> p < j) && (
    forall|m: int| 0 <= m < bs.len() && bs[m].0 == o[j] && parent_pos(bs, m) is Some ==> rig_parent(bs, o, j) is Some)
        by {
        let m = choose|m: int| 0 <= m < bs.len() && bs[m].0 == o[j];
        lemma_pos_from(bs, o[j], 0);
        assert(pos_of(bs, o[j]) == Some(m));
        match bs[m].1 {
            Some(pid) => {
                lemma_pos_from(bs, pid, 0);
                lemma_order_pos_from(o, pid, 0);
                match pos_of(bs, pid) {
                    Some(pp) => {
                        assert(parent_pos(bs, m) == Some(pp));
                        assert(o[j] == bs[m].0);
                        let i = choose|i: int| 0 <= i < j && o[i] == bs[pp].0;
                        assert(forall|h: int| 0 <= h < i ==> o[h] != pid);
                        assert(order_pos_from(o, pid, 0) == Some(i));
                        assert(i < 256);
                    },
                    None => {
                        assert(parent_pos(bs, m) is None);
                        match order_pos_from(o, pid, 0) {
                            Some(i) => {
                                let mm = choose|mm: int| 0 <= mm < bs.len() && bs[mm].0 == o[i];
                                assert(bs[mm].0 == pid);
                            },
                            None => {},
                        }
                    },
                }
            },
            None => {
                assert(parent_pos(bs, m) is None);
            },
        }
        assert forall|m2: int| 0 <= m2 < bs.len() && bs[m2].0 == o[j] && parent_pos(bs, m2) is Some implies rig_parent(bs, o, j) is Some by {
            assert(m2 == m);
        }
    }
}

/// The triangles of one polygon, as triples of its polygon-vertex indices `p`: none for
/// fewer than three corners; the polygon itself for three; a quad split along its `0-2`
/// diagonal when `split_02` (the caller's choice from the quad's geometry: whether the two
/// halves face the same way, or the corners' positions are unknown), else along `1-3`; and a
/// larger polygon fanned out from its first corner.
pub open spec fn polygon_triangles(p: Seq<usize>, split_02: bool) -> Seq<(usize, usize, usize)> {
    if p.len() < 3 {
        Seq::empty()
    } else if p.len() == 3 {
        seq![(p[0], p[1], p[2])]
    } else if p.len() == 4 {
        if split_02 {
            seq![(p[0], p[1], p[2]), (p[2], p[3], p[0])]
        } else {
            seq![(p[0], p[1], p[3]), (p[3], p[1], p[2])]
        }
    } else {
        Seq::new((p.len() - 2) as nat, |i: int| (p[0], p[i + 1], p[i + 2]))
    }
}

/// Appends the triangles of one polygon to `results` (see [`polygon_triangles`]).
pub fn fan_triangulator(polygon: &[usize], split_02: bool, results: &mut Vec<(usize, usize, usize)>)
    ensures
        final(results)@ == old(results)@ + polygon_triangles(polygon@, split_02),
{
    let n = polygon.len();
    if n < 3 {
        assert(old(results)@ + Seq::<(usize, usize, usize)>::empty() =~= old(results)@);
    } else if n == 3 {
        results.push((polygon[0], polygon[1], polygon[2]));
        assert(results@ =~= old(results)@ + polygon_triangles(polygon@, split_02));
    } else if n == 4 {
        if split_02 {
            results.push((polygon[0], polygon[1], polygon[2]));
            results.push((polygon[2], polygon[3], polygon[0]));
        } else {
            results.push((polygon[0], polygon[1], polygon[3]));
            results.push((polygon[3], polygon[1], polygon[2]));
        }
        assert(results@ =~= old(results)@ + polygon_triangles(polygon@, split_02));
    } else {
        let ghost fan = polygon_triangles(polygon@, split_02);
        let mut i: usize = 1;
        while i < n - 1
            invariant
                4 < n,
                n == polygon@.len(),
                1 <= i <= n - 1,
                fan == Seq::new((n - 2) as nat, |k: int| (polygon@[0], polygon@[k + 1], polygon@[k + 2])),
                results@ == old(results)@ + fan.take(i - 1),
            decreases n - 1 - i,
        {
            results.push((polygon[0], polygon[i], polygon[i + 1]));
            assert(fan.take(i as int) =~= fan.take(i - 1).push(fan[i - 1]));
            assert(results@ =~= old(results)@ + fan.take(i as int));
            i = i + 1;
        }
        assert(fan.take(n - 2) =~= fan);
    }
}

/// The dense per-control-point deltas after scattering the first `k` entries of a shape:
/// entry `j`, when its control-point index `indexes[j]` is one of `dense`'s, sets that control
/// point to the values `verts[3j..3j + 3]`; other entries are skipped.
pub open spec fn scattered<T>(indexes: Seq<i32>, verts: Seq<T>, dense: Seq<[T; 3]>, k: nat) -> Seq<[T; 3]>
    decreases k,
{
    if k == 0 {
        dense
    } else {
        let d = scattered(indexes, verts, dense, (k - 1) as nat);
        let cp = indexes[k - 1];
        let b = 3 * (k - 1);
        if 0 <= cp < d.len() {
            d.update(cp as int, [verts[b], verts[b + 1], verts[b + 2]])
        } else {
            d
        }
    }
}

/// Whether some entry of a shape names one of `n` control points.
pub open spec fn touches(indexes: Seq<i32>, n: nat) -> bool {
    exists|j: int| 0 <= j < indexes.len() && 0 <= #[trigger] indexes[j] < n
}

pub proof fn lemma_scattered_len<T>(indexes: Seq<i32>, verts: Seq<T>, dense: Seq<[T; 3]>, k: nat)
    ensures
        scattered(indexes, verts, dense, k).len() == dense.len(),
    decreases k,
{
    if k > 0 {
        lemma_scattered_len(indexes, verts, dense, (k - 1) as nat);
    }
}

/// Scatters a shape's sparse control-point `indexes` and flat `verts` (three values per
/// index) into the dense per-control-point `cp_deltas` (see [`scattered`]), returning whether
/// it wrote anything. An empty shape, or one whose `verts` hold fewer than three values per
/// index, writes nothing.
pub fn expand_sparse_shape_deltas<T: Copy>(indexes: &[i32], verts: &[T], cp_deltas: &mut Vec<[T; 3]>) -> (r: bool)
    ensures
        ({
            let ok = indexes@.len() > 0 && verts@.len() >= 3 * indexes@.len();
            &&& final(cp_deltas)@ == if ok {
                scattered(indexes@, verts@, old(cp_deltas)@, indexes@.len())
            } else {
                old(cp_deltas)@
            }
            &&& r == (ok && touches(indexes@, old(cp_deltas)@.len()))
        }),
{
    let n = indexes.len();
    let vl = verts.len();
    if n == 0 {
        return false;
    }
    let needed = match n.checked_mul(3) {
        Some(m) => m,
        None => {
            return false;
        },
    };
    if vl < needed {
        return false;
    }
    let mut any = false;
    let mut k: usize = 0;
    while k < n
        invariant
            k <= n,
            n == indexes@.len(),
            verts@.len() >= 3 * n,
            needed == 3 * n,
            cp_deltas@ == scattered(indexes@, verts@, old(cp_deltas)@, k as nat),
            cp_deltas@.len() == old(cp_deltas)@.len(),
            any == exists|j: int| 0 <= j < k && 0 <= #[trigger] indexes@[j] < old(cp_deltas)@.len(),
        decreases n - k,
    {
        let cp = indexes[k];
        if cp >= 0 && (cp as usize) < cp_deltas.len() {
            let b = 3 * k;
            cp_deltas.set(cp as usize, [verts[b], verts[b + 1], verts[b + 2]]);
            any = true;
        }
        k = k + 1;
    }
    any
}

} // verus!
