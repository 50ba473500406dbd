//! glTF documents: parsing, skins and skeletons, and the plan of the animation clips.
use vstd::prelude::*;

use crate::bvh::Skeleton;
use crate::error::IoError;
use crate::gltf_skin::{
    all_entries, check_joint_counts, convert_skeletons, first_oversize, lemma_lookup_entries, oversize_message, skeleton_view,
    skeletons_of, GltfSkin,
};
use crate::text::{decimal, decimal_string, push_str, starts};

verus! {

/// The most joints a skin may have: per-vertex joint indices are 8-bit.
pub const MAX_JOINTS: usize = 256;

/// What an animation channel drives.
#[derive(Clone, Copy, Debug, PartialEq, Eq, Structural)]
pub enum TrackKind {
    /// A node's translation.
    Translation,
    /// A node's rotation.
    Rotation,
    /// A node's scale.
    Scale,
    /// A mesh's morph target weights.
    MorphWeights,
}

/// How a channel's keyframes are interpolated.
#[derive(Clone, Copy, Debug, PartialEq, Eq, Structural)]
pub enum Interpolation {
    /// Values hold until the next keyframe.
    Step,
    /// Values are interpolated linearly.
    Linear,
    /// Values are interpolated by cubic splines with tangents.
    CubicSpline,
}

/// One channel of an animation: the node it targets, the code of the property it drives
/// (1 translation, 2 rotation, 3 scale, 4 morph target weights), and the code of its sampler's
/// interpolation (1 linear, 2 step, 3 cubic spline).
#[derive(Clone, Copy, Debug, PartialEq, Eq, Structural)]
pub struct GltfChannel {
    pub node: usize,
    pub property: u8,
    pub interpolation: u8,
}

/// What a property code drives.
pub open spec fn kind_of(code: u8) -> Option<TrackKind> {
    if code == 1 {
        Some(TrackKind::Translation)
    } else if code == 2 {
        Some(TrackKind::Rotation)
    } else if code == 3 {
        Some(TrackKind::Scale)
    } else if code == 4 {
        Some(TrackKind::MorphWeights)
    } else {
        None
    }
}

/// The interpolation an interpolation code names.
pub open spec fn interpolation_of(code: u8) -> Option<Interpolation> {
    if code == 1 {
        Some(Interpolation::Linear)
    } else if code == 2 {
        Some(Interpolation::Step)
    } else if code == 3 {
        Some(Interpolation::CubicSpline)
    } else {
        None
    }
}

fn track_kind(code: u8) -> (r: Option<TrackKind>)
    ensures
        r == kind_of(code),
{
    if code == 1 {
        Some(TrackKind::Translation)
    } else if code == 2 {
        Some(TrackKind::Rotation)
    } else if code == 3 {
        Some(TrackKind::Scale)
    } else if code == 4 {
        Some(TrackKind::MorphWeights)
    } else {
        None
    }
}

fn interpolation(code: u8) -> (r: Option<Interpolation>)
    ensures
        r == interpolation_of(code),
{
    if code == 1 {
        Some(Interpolation::Linear)
    } else if code == 2 {
        Some(Interpolation::Step)
    } else if code == 3 {
        Some(Interpolation::CubicSpline)
    } else {
        None
    }
}

/// One animation of a document: its name, when it has one, and its channels in order.
pub struct GltfAnimation {
    pub name: Option<String>,
    pub channels: Vec<GltfChannel>,
}

/// One track of a clip: the channel of the animation it comes from, the joint it drives within
/// the clip's skeleton, what it drives and how it is interpolated.
#[derive(Clone, Copy, Debug, PartialEq, Eq, Structural)]
pub struct TrackPlan {
    pub channel: usize,
    pub joint: usize,
    pub kind: TrackKind,
    pub interpolation: Interpolation,
}

/// One clip: the animation it comes from, its name, the skeleton it drives, and its tracks.
pub struct ClipPlan {
    pub animation: usize,
    pub name: String,
    pub skeleton_index: usize,
    pub tracks: Vec<TrackPlan>,
}

/// A clip as plain values: animation, name, skeleton and tracks.
pub open spec fn clip_view(c: ClipPlan) -> (usize, Seq<char>, usize, Seq<TrackPlan>) {
    (c.animation, c.name@, c.skeleton_index, c.tracks@)
}

/// Clips as plain values.
pub open spec fn clip_views(cs: Seq<ClipPlan>) -> Seq<(usize, Seq<char>, usize, Seq<TrackPlan>)> {
    cs.map_values(|c: ClipPlan| clip_view(c))
}

/// The skeleton and joint of `node` among the first `n` lookup entries (node, skeleton,
/// joint): the last entry for the node wins, as when the entries are inserted into a map in
/// order.
pub open spec fn joint_of_node(lookup: Seq<(usize, usize, usize)>, node: usize, n: nat) -> Option<(usize, usize)>
    decreases n,
{
    if n == 0 || n > lookup.len() {
        None
    } else if lookup[n - 1].0 == node {
        Some((lookup[n - 1].1, lookup[n - 1].2))
    } else {
        joint_of_node(lookup, node, (n - 1) as nat)
    }
}

/// The number of input keyframes read for channel `c`; none when its samples could not be
/// read.
pub open spec fn samples_at(samples: Seq<Option<usize>>, c: int) -> Option<usize> {
    if 0 <= c < samples.len() {
        samples[c]
    } else {
        None
    }
}

/// The track channel `c` gives to the clip of skeleton `s`: none when the channel's node is
/// not a joint of that skeleton, when it drives morph weights, or when it has no keyframes.
pub open spec fn track_for(
    ch: GltfChannel,
    samples: Option<usize>,
    lookup: Seq<(usize, usize, usize)>,
    s: usize,
    c: int,
) -> Option<TrackPlan> {
    match (joint_of_node(lookup, ch.node, lookup.len()), kind_of(ch.property), interpolation_of(ch.interpolation)) {
        (Some((sk, j)), Some(k), Some(i)) => if sk == s && k != TrackKind::MorphWeights && (samples matches Some(n)
            && n > 0) {
            Some(TrackPlan { channel: c as usize, joint: j, kind: k, interpolation: i })
        } else {
            None
        },
        _ => None,
    }
}

/// The tracks the first `k` channels give to the clip of skeleton `s`, in channel order.
pub open spec fn tracks_for(
    chs: Seq<GltfChannel>,
    samples: Seq<Option<usize>>,
    lookup: Seq<(usize, usize, usize)>,
    s: usize,
    k: nat,
) -> Seq<TrackPlan>
    decreases k,
{
    if k == 0 || k > chs.len() {
        Seq::empty()
    } else {
        let prev = tracks_for(chs, samples, lookup, s, (k - 1) as nat);
        match track_for(chs[k - 1], samples_at(samples, k - 1), lookup, s, k - 1) {
            Some(t) => prev.push(t),
            None => prev,
        }
    }
}

/// One more than the largest skeleton index of the first `n` lookup entries (0 for none).
pub open spec fn skeleton_bound(lookup: Seq<(usize, usize, usize)>, n: nat) -> nat
    decreases n,
{
    if n == 0 || n > lookup.len() {
        0
    } else {
        let b = skeleton_bound(lookup, (n - 1) as nat);
        if lookup[n - 1].1 + 1 > b {
            (lookup[n - 1].1 + 1) as nat
        } else {
            b
        }
    }
}

/// A clip's name: the animation's name, or `animation_` and its index.
pub open spec fn clip_name(name: Option<String>, a: nat) -> Seq<char> {
    match name {
        Some(t) => t@,
        None => "animation_"@ + decimal(a),
    }
}

/// The clips of animation `a` for skeletons `0 .. s`: one per skeleton that gets at least one
/// track, in ascending skeleton order.
pub open spec fn animation_clips(
    anim: GltfAnimation,
    samples: Seq<Option<usize>>,
    lookup: Seq<(usize, usize, usize)>,
    a: nat,
    s: nat,
) -> Seq<(usize, Seq<char>, usize, Seq<TrackPlan>)>
    decreases s,
{
    if s == 0 {
        Seq::empty()
    } else {
        let prev = animation_clips(anim, samples, lookup, a, (s - 1) as nat);
        let ts = tracks_for(anim.channels@, samples, lookup, (s - 1) as usize, anim.channels@.len());
        if ts.len() > 0 {
            prev.push((a as usize, clip_name(anim.name, a), (s - 1) as usize, ts))
        } else {
            prev
        }
    }
}

/// The samples of animation `a`, when given.
pub open spec fn samples_of(samples: Seq<Vec<Option<usize>>>, a: int) -> Seq<Option<usize>> {
    if 0 <= a < samples.len() {
        samples[a]@
    } else {
        Seq::empty()
    }
}

/// The clips of the first `k` animations: each animation split into one clip per skeleton
/// its channels drive.
pub open spec fn clip_plans(
    anims: Seq<GltfAnimation>,
    samples: Seq<Vec<Option<usize>>>,
    lookup: Seq<(usize, usize, usize)>,
    k: nat,
) -> Seq<(usize, Seq<char>, usize, Seq<TrackPlan>)>
    decreases k,
{
    if k == 0 || k > anims.len() {
        Seq::empty()
    } else {
        clip_plans(anims, samples, lookup, (k - 1) as nat) + animation_clips(
            anims[k - 1],
            samples_of(samples, k - 1),
            lookup,
            (k - 1) as nat,
            skeleton_bound(lookup, lookup.len()),
        )
    }
}

/// Some lookup entry names skeleton `s` and joint `j`.
pub open spec fn has_entry(lookup: Seq<(usize, usize, usize)>, s: usize, j: usize) -> bool {
    exists|e: int| 0 <= e < lookup.len() && (#[trigger] lookup[e]).1 == s && lookup[e].2 == j
}

proof fn lemma_joint_of_node_entry(lookup: Seq<(usize, usize, usize)>, node: usize, n: nat)
    ensures
        joint_of_node(lookup, node, n) matches Some((s, j)) ==> has_entry(lookup, s, j),
    decreases n,
{
    if n > 0 && n <= lookup.len() {
        lemma_joint_of_node_entry(lookup, node, (n - 1) as nat);
        if lookup[n - 1].0 == node {
            assert(lookup[n - 1].1 == lookup[n - 1].1);
        }
    }
}

proof fn lemma_tracks_for_entries(
    chs: Seq<GltfChannel>,
    samples: Seq<Option<usize>>,
    lookup: Seq<(usize, usize, usize)>,
    s: usize,
    k: nat,
)
    ensures
        forall|t: int|
            0 <= t < tracks_for(chs, samples, lookup, s, k).len() ==> has_entry(
                lookup,
                s,
                (#[trigger] tracks_for(chs, samples, lookup, s, k)[t]).joint,
            ),
    decreases k,
{
    if k > 0 && k <= chs.len() {
        lemma_tracks_for_entries(chs, samples, lookup, s, (k - 1) as nat);
        lemma_joint_of_node_entry(lookup, chs[k - 1].node, lookup.len());
        let prev = tracks_for(chs, samples, lookup, s, (k - 1) as nat);
        let cur = tracks_for(chs, samples, lookup, s, k);
        assert forall|t: int| 0 <= t < cur.len() implies has_entry(lookup, s, (#[trigger] cur[t]).joint) by {
            if t < prev.len() {
                assert(cur[t] == prev[t]);
            }
        }
    }
}

proof fn lemma_animation_clips_entries(
    anim: GltfAnimation,
    samples: Seq<Option<usize>>,
    lookup: Seq<(usize, usize, usize)>,
    a: nat,
    s: nat,
)
    ensures
        forall|c: int, t: int|
            0 <= c < animation_clips(anim, samples, lookup, a, s).len() && 0 <= t < animation_clips(
                anim,
                samples,
                lookup,
                a,
                s,
            )[c].3.len() ==> has_entry(
                lookup,
                animation_clips(anim, samples, lookup, a, s)[c].2,
                (#[trigger] animation_clips(anim, samples, lookup, a, s)[c].3[t]).joint,
            ),
    decreases s,
{
    if s > 0 {
        lemma_animation_clips_entries(anim, samples, lookup, a, (s - 1) as nat);
        lemma_tracks_for_entries(anim.channels@, samples, lookup, (s - 1) as usize, anim.channels@.len());
        let prev = animation_clips(anim, samples, lookup, a, (s - 1) as nat);
        let cur = animation_clips(anim, samples, lookup, a, s);
        assert forall|c: int, t: int| 0 <= c < cur.len() && 0 <= t < cur[c].3.len() implies has_entry(
            lookup,
            cur[c].2,
            (#[trigger] cur[c].3[t]).joint,
        ) by {
            if c < prev.len() {
                assert(cur[c] == prev[c]);
            }
        }
    }
}

proof fn lemma_clip_plans_entries(
    anims: Seq<GltfAnimation>,
    samples: Seq<Vec<Option<usize>>>,
    lookup: Seq<(usize, usize, usize)>,
    k: nat,
)
    ensures
        forall|c: int, t: int|
            0 <= c < clip_plans(anims, samples, lookup, k).len() && 0 <= t < clip_plans(anims, samples, lookup, k)[c].3.len()
                ==> has_entry(
                lookup,
                clip_plans(anims, samples, lookup, k)[c].2,
                (#[trigger] clip_plans(anims, samples, lookup, k)[c].3[t]).joint,
            ),
    decreases k,
{
    if k > 0 && k <= anims.len() {
        lemma_clip_plans_entries(anims, samples, lookup, (k - 1) as nat);
        let bound = skeleton_bound(lookup, lookup.len());
        lemma_animation_clips_entries(anims[k - 1], samples_of(samples, k - 1), lookup, (k - 1) as nat, bound);
        let prev = clip_plans(anims, samples, lookup, (k - 1) as nat);
        let more = animation_clips(anims[k - 1], samples_of(samples, k - 1), lookup, (k - 1) as nat, bound);
        let cur = clip_plans(anims, samples, lookup, k);
        assert(cur == prev + more);
        assert forall|c: int, t: int| 0 <= c < cur.len() && 0 <= t < cur[c].3.len() implies has_entry(
            lookup,
            cur[c].2,
            (#[trigger] cur[c].3[t]).joint,
        ) by {
            if c < prev.len() {
                assert(cur[c] == prev[c]);
            } else {
                assert(cur[c] == more[c - prev.len()]);
            }
        }
    }
}

/// With the joint lookup of a document's skins, every clip drives one of the skeletons of
/// those skins, and every track of it drives a joint of that skeleton.
pub proof fn lemma_clip_tracks_in_skeletons(
    ch: Seq<Seq<usize>>,
    skins: Seq<GltfSkin>,
    anims: Seq<GltfAnimation>,
    samples: Seq<Vec<Option<usize>>>,
)
    requires
        skins.len() <= usize::MAX,
    ensures
        ({
            let lookup = all_entries(ch, skins, skins.len());
            let clips = clip_plans(anims, samples, lookup, anims.len());
            forall|c: int, t: int|
                0 <= c < clips.len() && 0 <= t < clips[c].3.len() ==> {
                    &&& clips[c].2 < skins.len()
                    &&& (#[trigger] clips[c].3[t]).joint < skeletons_of(ch, skins)[clips[c].2 as int].1.len()
                }
        }),
{
    let lookup = all_entries(ch, skins, skins.len());
    let clips = clip_plans(anims, samples, lookup, anims.len());
    lemma_clip_plans_entries(anims, samples, lookup, anims.len());
    lemma_lookup_entries(ch, skins, skins.len());
    assert forall|c: int, t: int| 0 <= c < clips.len() && 0 <= t < clips[c].3.len() implies {
        &&& clips[c].2 < skins.len()
        &&& (#[trigger] clips[c].3[t]).joint < skeletons_of(ch, skins)[clips[c].2 as int].1.len()
    } by {
        assert(has_entry(lookup, clips[c].2, clips[c].3[t].joint));
        let e = choose|e: int| 0 <= e < lookup.len() && (#[trigger] lookup[e]).1 == clips[c].2 && lookup[e].2 == clips[c].3[t].joint;
        assert(lookup[e] == all_entries(ch, skins, skins.len())[e]);
    }
}

fn joint_lookup(lookup: &[(usize, usize, usize)], node: usize) -> (r: Option<(usize, usize)>)
    ensures
        r == joint_of_node(lookup@, node, lookup@.len()),
{
    let mut k = lookup.len();
    while k > 0
        invariant
            k <= lookup@.len(),
            joint_of_node(lookup@, node, lookup@.len()) == joint_of_node(lookup@, node, k as nat),
        decreases k,
    {
        if lookup[k - 1].0 == node {
            return Some((lookup[k - 1].1, lookup[k - 1].2));
        }
        k = k - 1;
    }
    None
}

/// The map from joint node to (skeleton, joint) that inserting the first `n` lookup entries
/// in order builds: a later entry for a node replaces an earlier one.
pub open spec fn lookup_map(lookup: Seq<(usize, usize, usize)>, n: nat) -> Map<usize, (usize, usize)>
    decreases n,
{
    if n == 0 || n > lookup.len() {
        Map::empty()
    } else {
        lookup_map(lookup, (n - 1) as nat).insert(lookup[n - 1].0, (lookup[n - 1].1, lookup[n - 1].2))
    }
}

proof fn lemma_lookup_map(lookup: Seq<(usize, usize, usize)>, n: nat)
    requires
        n <= lookup.len(),
    ensures
        forall|node: usize|
            (#[trigger] lookup_map(lookup, n).contains_key(node) <==> joint_of_node(lookup, node, n) is Some) && (
            joint_of_node(lookup, node, n) matches Some(v) ==> lookup_map(lookup, n)[node] == v),
    decreases n,
{
    if n > 0 {
        lemma_lookup_map(lookup, (n - 1) as nat);
        let prev = lookup_map(lookup, (n - 1) as nat);
        assert forall|node: usize|
            (#[trigger] lookup_map(lookup, n).contains_key(node) <==> joint_of_node(lookup, node, n) is Some) && (
            joint_of_node(lookup, node, n) matches Some(v) ==> lookup_map(lookup, n)[node] == v) by {
            if node != lookup[n - 1].0 {
                assert(prev.contains_key(node) <==> joint_of_node(lookup, node, (n - 1) as nat) is Some);
            }
        }
    }
}

/// The joint lookup as a map from joint node to (skeleton, joint), built by inserting the
/// entries in order: a node maps to what [`joint_of_node`] finds for it, and nodes without an
/// entry are absent.
pub fn joint_map(lookup: &[(usize, usize, usize)]) -> (r: std::collections::HashMap<usize, (usize, usize)>)
    ensures
        r@ == lookup_map(lookup@, lookup@.len()),
        forall|node: usize|
            (#[trigger] r@.contains_key(node) <==> joint_of_node(lookup@, node, lookup@.len()) is Some) && (
            joint_of_node(lookup@, node, lookup@.len()) matches Some(v) ==> r@[node] == v),
{
    broadcast use vstd::std_specs::hash::group_hash_axioms;

    let mut m: std::collections::HashMap<usize, (usize, usize)> = std::collections::HashMap::new();
    let mut k: usize = 0;
    while k < lookup.len()
        invariant
            k <= lookup@.len(),
            m@ == lookup_map(lookup@, k as nat),
        decreases lookup@.len() - k,
    {
        let (node, s, j) = lookup[k];
        m.insert(node, (s, j));
        k = k + 1;
    }
    proof {
        lemma_lookup_map(lookup@, lookup@.len());
    }
    m
}

/// Every skeleton index of the lookup is below `usize::MAX`, so the skeleton count fits.
pub open spec fn skeletons_fit(lookup: Seq<(usize, usize, usize)>) -> bool {
    forall|k: int| 0 <= k < lookup.len() ==> (#[trigger] lookup[k]).1 < usize::MAX
}

fn skeleton_count(lookup: &[(usize, usize, usize)]) -> (r: usize)
    requires
        skeletons_fit(lookup@),
    ensures
        r == skeleton_bound(lookup@, lookup@.len()),
{
    let mut b: usize = 0;
    let mut k: usize = 0;
    while k < lookup.len()
        invariant
            k <= lookup@.len(),
            skeletons_fit(lookup@),
            b == skeleton_bound(lookup@, k as nat),
        decreases lookup@.len() - k,
    {
        let s = lookup[k].1;
        if s + 1 > b {
            b = s + 1;
        }
        k = k + 1;
    }
    b
}

fn clip_tracks(
    anim: &GltfAnimation,
    samples: &[Option<usize>],
    lookup: &[(usize, usize, usize)],
    s: usize,
) -> (r: Vec<TrackPlan>)
    ensures
        r@ == tracks_for(anim.channels@, samples@, lookup@, s, anim.channels@.len()),
{
    let mut out: Vec<TrackPlan> = Vec::new();
    let mut c: usize = 0;
    while c < anim.channels.len()
        invariant
            c <= anim.channels@.len(),
            out@ == tracks_for(anim.channels@, samples@, lookup@, s, c as nat),
        decreases anim.channels@.len() - c,
    {
        let ch = anim.channels[c];
        let n = if c < samples.len() {
            samples[c]
        } else {
            None
        };
        assert(n == samples_at(samples@, c as int));
        match (joint_lookup(lookup, ch.node), track_kind(ch.property), interpolation(ch.interpolation)) {
            (Some((sk, j)), Some(k), Some(i)) => {
                let keep = sk == s && match k {
                    TrackKind::MorphWeights => false,
                    _ => true,
                } && match n {
                    Some(m) => m > 0,
                    None => false,
                };
                if keep {
                    out.push(TrackPlan { channel: c, joint: j, kind: k, interpolation: i });
                }
            },
            _ => {},
        }
        c = c + 1;
    }
    out
}

fn animation_name(name: &Option<String>, a: usize) -> (r: String)
    ensures
        r@ == clip_name(*name, a as nat),
{
    match name {
        Some(t) => t.clone(),
        None => {
            let mut s = String::new();
            push_str(&mut s, "animation_");
            let d = decimal_string(a);
            push_str(&mut s, d.as_str());
            s
        },
    }
}

/// The clips of a document's animations: each animation split into one clip per skeleton its
/// channels drive (see [`clip_plans`]). `samples[a][c]` is the number of keyframes read for
/// channel `c` of animation `a` (none when they could not be read); `lookup` lists, in the
/// order they were recorded, the joint nodes with their skeleton and joint index.
pub fn convert_animations(
    animations: &[GltfAnimation],
    samples: &[Vec<Option<usize>>],
    lookup: &[(usize, usize, usize)],
) -> (r: Vec<ClipPlan>)
    requires
        skeletons_fit(lookup@),
    ensures
        clip_views(r@) == clip_plans(animations@, samples@, lookup@, animations@.len()),
{
    let bound = skeleton_count(lookup);
    let mut out: Vec<ClipPlan> = Vec::new();
    let mut a: usize = 0;
    while a < animations.len()
        invariant
            a <= animations@.len(),
            bound == skeleton_bound(lookup@, lookup@.len()),
            clip_views(out@) == clip_plans(animations@, samples@, lookup@, a as nat),
        decreases animations@.len() - a,
    {
        let anim = &animations[a];
        let empty: Vec<Option<usize>> = Vec::new();
        let sm: &[Option<usize>] = if a < samples.len() {
            samples[a].as_slice()
        } else {
            empty.as_slice()
        };
        assert(sm@ == samples_of(samples@, a as int));
        let ghost base = clip_views(out@);
        let mut s: usize = 0;
        while s < bound
            invariant
                s <= bound,
                a < animations@.len(),
                *anim == animations@[a as int],
                sm@ == samples_of(samples@, a as int),
                clip_views(out@) == base + animation_clips(*anim, sm@, lookup@, a as nat, s as nat),
            decreases bound - s,
        {
            let ts = clip_tracks(anim, sm, lookup, s);
            if ts.len() > 0 {
                let name = animation_name(&anim.name, a);
                let ghost before = out@;
                let clip = ClipPlan { animation: a, name, skeleton_index: s, tracks: ts };
                let ghost cv = clip_view(clip);
                out.push(clip);
                assert(clip_views(out@) =~= clip_views(before).push(cv));
            }
            s = s + 1;
        }
        a = a + 1;
    }
    out
}


#[verifier::external_type_specification]
#[verifier::external_body]
pub struct ExGltf(::gltf::Gltf);

#[verifier::external_type_specification]
#[verifier::external_body]
pub struct ExRoot(::gltf::json::Root);

/// A node as read: its name, when it has one, and its child indices as written.
pub struct RawNode {
    pub name: Option<String>,
    pub children: Vec<usize>,
}

/// A skin as read: its name, when it has one, and its joint node indices as written.
pub struct RawSkin {
    pub name: Option<String>,
    pub joints: Vec<usize>,
}

/// An animation as read: its name, when it has one; its channels as (sampler index, target
/// node index, property code, 0 for an unknown path); and its samplers' interpolation codes
/// (0 for an unknown one).
pub struct RawAnimation {
    pub name: Option<String>,
    pub channels: Vec<(usize, usize, u8)>,
    pub interpolations: Vec<u8>,
}

/// A parsed document and what is read from its JSON.
pub struct GltfParts {
    pub gltf: ::gltf::Gltf,
    pub nodes: Vec<RawNode>,
    pub skins: Vec<RawSkin>,
    pub animations: Vec<RawAnimation>,
}

/// A text that may be absent, as plain values.
pub open spec fn opt_text(o: Option<String>) -> Option<Seq<char>> {
    match o {
        Some(s) => Some(s@),
        None => None,
    }
}

/// Nodes, skins and animations as plain values.
pub open spec fn raw_view(p: GltfParts) -> (
    Seq<(Option<Seq<char>>, Seq<usize>)>,
    Seq<(Option<Seq<char>>, Seq<usize>)>,
    Seq<(Option<Seq<char>>, Seq<(usize, usize, u8)>, Seq<u8>)>,
) {
    (
        p.nodes@.map_values(|n: RawNode| (opt_text(n.name), n.children@)),
        p.skins@.map_values(|s: RawSkin| (opt_text(s.name), s.joints@)),
        p.animations@.map_values(|a: RawAnimation| (opt_text(a.name), a.channels@, a.interpolations@)),
    )
}

/// What `gltf::Gltf::from_slice_without_validation` reads from the bytes: when it accepts
/// them, the nodes (name, child indices), the skins (name, joint node indices) and the
/// animations (name, channels, sampler interpolation codes) of its JSON; else the text of
/// its error (its `Debug` form).
pub uninterp spec fn gltf_document(data: Seq<u8>) -> Result<
    (
        Seq<(Option<Seq<char>>, Seq<usize>)>,
        Seq<(Option<Seq<char>>, Seq<usize>)>,
        Seq<(Option<Seq<char>>, Seq<(usize, usize, u8)>, Seq<u8>)>,
    ),
    Seq<char>,
>;

/// Bytes that open a GLB header (`glTF`, version, length) whose declared length is shorter
/// than the 12-byte header itself.
pub open spec fn short_glb(d: Seq<u8>) -> bool {
    &&& d.len() >= 12
    &&& d[0] == 0x67u8 && d[1] == 0x6Cu8 && d[2] == 0x54u8 && d[3] == 0x46u8
    &&& d[8] < 12 && d[9] == 0 && d[10] == 0 && d[11] == 0
}

/// The nodes of `root` as plain values; stated by [`read_gltf`].
#[verifier::external_body]
fn json_nodes(root: &::gltf::json::Root) -> Vec<RawNode> {
    root.nodes.iter().map(|n| RawNode {
        name: n.name.clone(),
        children: n.children.iter().flatten().map(|c| c.value()).collect(),
    }).collect()
}

/// The skins of `root` as plain values; stated by [`read_gltf`].
#[verifier::external_body]
fn json_skins(root: &::gltf::json::Root) -> Vec<RawSkin> {
    root.skins.iter().map(|s| RawSkin { name: s.name.clone(), joints: s.joints.iter().map(|j| j.value()).collect() }).collect()
}

/// The animations of `root` as plain values, a checked enum read by its discriminant (0 when
/// invalid); stated by [`read_gltf`].
#[verifier::external_body]
fn json_animations(root: &::gltf::json::Root) -> Vec<RawAnimation> {
    root.animations.iter().map(|a| RawAnimation {
        name: a.name.clone(),
        channels: a.channels.iter().map(|c| (c.sampler.value(), c.target.node.value(), match &c.target.path {
            ::gltf::json::validation::Checked::Valid(p) => *p as u8,
            ::gltf::json::validation::Checked::Invalid => 0,
        })).collect(),
        interpolations: a.samplers.iter().map(|s| match &s.interpolation {
            ::gltf::json::validation::Checked::Valid(i) => *i as u8,
            ::gltf::json::validation::Checked::Invalid => 0,
        }).collect(),
    }).collect()
}

/// `gltf::Gltf::from_slice_without_validation`, with the nodes, skins and animations of the
/// parsed JSON (`Document::as_json`) as plain values: it succeeds exactly when the bytes parse,
/// and what it reads, or the parser's error rendered with `Debug`, is named
/// [`gltf_document`]. A GLB header declaring a length shorter than itself makes the parser's
/// length arithmetic overflow, so such bytes are not admitted.
#[verifier::external_body]
fn read_gltf(data: &[u8]) -> (r: Result<GltfParts, String>)
    requires
        !short_glb(data@),
    ensures
        r is Ok <==> gltf_document(data@) is Ok,
        r matches Ok(p) ==> gltf_document(data@) matches Ok(d) && d == raw_view(p),
        r matches Err(t) ==> gltf_document(data@) matches Err(u) && u == t@,
{
    match ::gltf::Gltf::from_slice_without_validation(data) {
        Ok(g) => {
            let (nodes, skins, animations) = (json_nodes(g.as_json()), json_skins(g.as_json()), json_animations(g.as_json()));
            Ok(GltfParts { gltf: g, nodes, skins, animations })
        },
        Err(e) => Err(format!("{e:?}")),
    }
}

/// Every child index, skin joint index and channel target index names one of the nodes.
pub open spec fn indices_in_range(
    d: (
        Seq<(Option<Seq<char>>, Seq<usize>)>,
        Seq<(Option<Seq<char>>, Seq<usize>)>,
        Seq<(Option<Seq<char>>, Seq<(usize, usize, u8)>, Seq<u8>)>,
    ),
) -> bool {
    &&& forall|i: int, k: int| 0 <= i < d.0.len() && 0 <= k < d.0[i].1.len() ==> (#[trigger] d.0[i].1[k]) < d.0.len()
    &&& forall|i: int, k: int| 0 <= i < d.1.len() && 0 <= k < d.1[i].1.len() ==> (#[trigger] d.1[i].1[k]) < d.0.len()
    &&& forall|i: int, k: int| 0 <= i < d.2.len() && 0 <= k < d.2[i].1.len() ==> (#[trigger] d.2[i].1[k]).1 < d.0.len()
}

/// The interpolation code of sampler `s`, 0 when there is no such sampler.
pub open spec fn interpolation_at(codes: Seq<u8>, s: usize) -> u8 {
    if s < codes.len() {
        codes[s as int]
    } else {
        0
    }
}

/// A skin as plain values: its name and its joints (node index and the node's name).
pub open spec fn skin_plain(s: GltfSkin) -> (Option<Seq<char>>, Seq<(usize, Option<Seq<char>>)>) {
    (opt_text(s.name), s.joints@.map_values(|j: (usize, Option<String>)| (j.0, opt_text(j.1))))
}

/// An animation as plain values: its name and its channels.
pub open spec fn animation_plain(a: GltfAnimation) -> (Option<Seq<char>>, Seq<GltfChannel>) {
    (opt_text(a.name), a.channels@)
}

/// The skins of a read document: each joint with the name of its node.
pub open spec fn doc_skins(
    nodes: Seq<(Option<Seq<char>>, Seq<usize>)>,
    skins: Seq<(Option<Seq<char>>, Seq<usize>)>,
) -> Seq<(Option<Seq<char>>, Seq<(usize, Option<Seq<char>>)>)> {
    skins.map_values(|s: (Option<Seq<char>>, Seq<usize>)| (s.0, s.1.map_values(|j: usize| (j, nodes[j as int].0))))
}

/// The animations of a read document: each channel with its target node, its property code,
/// and the interpolation code of its sampler.
pub open spec fn doc_animations(anims: Seq<(Option<Seq<char>>, Seq<(usize, usize, u8)>, Seq<u8>)>) -> Seq<
    (Option<Seq<char>>, Seq<GltfChannel>),
> {
    anims.map_values(
        |a: (Option<Seq<char>>, Seq<(usize, usize, u8)>, Seq<u8>)|
            (
                a.0,
                a.1.map_values(
                    |c: (usize, usize, u8)|
                        GltfChannel { node: c.1, property: c.2, interpolation: interpolation_at(a.2, c.0) },
                ),
            ),
    )
}

/// A read document: its node children, skins and animations as plain values.
pub struct GltfDocument {
    pub gltf: ::gltf::Gltf,
    pub children: Vec<Vec<usize>>,
    pub skins: Vec<GltfSkin>,
    pub animations: Vec<GltfAnimation>,
}

fn check_indices(p: &GltfParts) -> (r: bool)
    ensures
        r == indices_in_range(raw_view(*p)),
{
    let n = p.nodes.len();
    let ghost d = raw_view(*p);
    let mut i: usize = 0;
    while i < n
        invariant
            i <= n,
            n == p.nodes@.len(),
            d == raw_view(*p),
            forall|a: int, k: int| 0 <= a < i && 0 <= k < d.0[a].1.len() ==> (#[trigger] d.0[a].1[k]) < n,
        decreases n - i,
    {
        let ch = &p.nodes[i].children;
        assert(ch@ == d.0[i as int].1);
        let mut k: usize = 0;
        while k < ch.len()
            invariant
                k <= ch@.len(),
                ch@ == d.0[i as int].1,
                i < n,
                d == raw_view(*p),
                n == p.nodes@.len(),
                forall|q: int| 0 <= q < k ==> (#[trigger] ch@[q]) < n,
            decreases ch@.len() - k,
        {
            if ch[k] >= n {
                assert(!(d.0[i as int].1[k as int] < d.0.len()));
                return false;
            }
            k = k + 1;
        }
        i = i + 1;
    }
    let mut i: usize = 0;
    while i < p.skins.len()
        invariant
            i <= p.skins@.len(),
            n == p.nodes@.len(),
            d == raw_view(*p),
            forall|a: int, k: int| 0 <= a < d.0.len() && 0 <= k < d.0[a].1.len() ==> (#[trigger] d.0[a].1[k]) < n,
            forall|a: int, k: int| 0 <= a < i && 0 <= k < d.1[a].1.len() ==> (#[trigger] d.1[a].1[k]) < n,
        decreases p.skins@.len() - i,
    {
        let js = &p.skins[i].joints;
        assert(js@ == d.1[i as int].1);
        let mut k: usize = 0;
        while k < js.len()
            invariant
                k <= js@.len(),
                js@ == d.1[i as int].1,
                i < p.skins@.len(),
                d == raw_view(*p),
                n == p.nodes@.len(),
                forall|q: int| 0 <= q < k ==> (#[trigger] js@[q]) < n,
            decreases js@.len() - k,
        {
            if js[k] >= n {
                assert(!(d.1[i as int].1[k as int] < d.0.len()));
                return false;
            }
            k = k + 1;
        }
        i = i + 1;
    }
    let mut i: usize = 0;
    while i < p.animations.len()
        invariant
            i <= p.animations@.len(),
            n == p.nodes@.len(),
            d == raw_view(*p),
            forall|a: int, k: int| 0 <= a < d.0.len() && 0 <= k < d.0[a].1.len() ==> (#[trigger] d.0[a].1[k]) < n,
            forall|a: int, k: int| 0 <= a < d.1.len() && 0 <= k < d.1[a].1.len() ==> (#[trigger] d.1[a].1[k]) < n,
            forall|a: int, k: int| 0 <= a < i && 0 <= k < d.2[a].1.len() ==> (#[trigger] d.2[a].1[k]).1 < n,
        decreases p.animations@.len() - i,
    {
        let cs = &p.animations[i].channels;
        assert(cs@ == d.2[i as int].1);
        let mut k: usize = 0;
        while k < cs.len()
            invariant
                k <= cs@.len(),
                cs@ == d.2[i as int].1,
                i < p.animations@.len(),
                d == raw_view(*p),
                n == p.nodes@.len(),
                forall|q: int| 0 <= q < k ==> (#[trigger] cs@[q]).1 < n,
            decreases cs@.len() - k,
        {
            if cs[k].1 >= n {
                assert(!(d.2[i as int].1[k as int].1 < d.0.len()));
                return false;
            }
            k = k + 1;
        }
        i = i + 1;
    }
    true
}

fn copy_text(o: &Option<String>) -> (r: Option<String>)
    ensures
        opt_text(r) == opt_text(*o),
{
    match o {
        Some(s) => Some(s.clone()),
        None => None,
    }
}

fn plain_skins(p: &GltfParts) -> (r: Vec<GltfSkin>)
    requires
        indices_in_range(raw_view(*p)),
    ensures
        r@.map_values(|s: GltfSkin| skin_plain(s)) == doc_skins(raw_view(*p).0, raw_view(*p).1),
{
    let ghost d = raw_view(*p);
    let mut out: Vec<GltfSkin> = Vec::new();
    let mut i: usize = 0;
    while i < p.skins.len()
        invariant
            i <= p.skins@.len(),
            d == raw_view(*p),
            indices_in_range(d),
            out@.map_values(|s: GltfSkin| skin_plain(s)) == doc_skins(d.0, d.1).subrange(0, i as int),
        decreases p.skins@.len() - i,
    {
        let sk = &p.skins[i];
        assert(sk.joints@ == d.1[i as int].1);
        let mut joints: Vec<(usize, Option<String>)> = Vec::new();
        let mut k: usize = 0;
        while k < sk.joints.len()
            invariant
                k <= sk.joints@.len(),
                d == raw_view(*p),
                indices_in_range(d),
                i < p.skins@.len(),
                sk.joints@ == d.1[i as int].1,
                joints@.map_values(|j: (usize, Option<String>)| (j.0, opt_text(j.1))) == d.1[i as int].1.map_values(
                    |j: usize| (j, d.0[j as int].0),
                ).subrange(0, k as int),
            decreases sk.joints@.len() - k,
        {
            let j = sk.joints[k];
            assert(d.1[i as int].1[k as int] == j);
            assert(j < p.nodes@.len());
            assert(d.0[j as int].0 == opt_text(p.nodes@[j as int].name));
            let name = copy_text(&p.nodes[j].name);
            let ghost before = joints@;
            joints.push((j, name));
            assert(joints@.map_values(|j: (usize, Option<String>)| (j.0, opt_text(j.1))) =~= before.map_values(
                |j: (usize, Option<String>)| (j.0, opt_text(j.1)),
            ).push((j, opt_text(name))));
            assert(joints@.map_values(|j: (usize, Option<String>)| (j.0, opt_text(j.1))) =~= d.1[i as int].1.map_values(
                |j: usize| (j, d.0[j as int].0),
            ).subrange(0, k + 1));
            k = k + 1;
        }
        assert(joints@.map_values(|j: (usize, Option<String>)| (j.0, opt_text(j.1))) =~= d.1[i as int].1.map_values(
            |j: usize| (j, d.0[j as int].0),
        ));
        let skin = GltfSkin { name: copy_text(&sk.name), joints };
        assert(skin_plain(skin) == doc_skins(d.0, d.1)[i as int]);
        let ghost before = out@;
        out.push(skin);
        assert(out@.map_values(|s: GltfSkin| skin_plain(s)) =~= before.map_values(|s: GltfSkin| skin_plain(s)).push(
            skin_plain(skin),
        ));
        assert(out@.map_values(|s: GltfSkin| skin_plain(s)) =~= doc_skins(d.0, d.1).subrange(0, i + 1));
        i = i + 1;
    }
    assert(doc_skins(d.0, d.1).subrange(0, p.skins@.len() as int) =~= doc_skins(d.0, d.1));
    out
}

fn plain_animations(p: &GltfParts) -> (r: Vec<GltfAnimation>)
    ensures
        r@.map_values(|a: GltfAnimation| animation_plain(a)) == doc_animations(raw_view(*p).2),
{
    let ghost d = raw_view(*p);
    let mut out: Vec<GltfAnimation> = Vec::new();
    let mut i: usize = 0;
    while i < p.animations.len()
        invariant
            i <= p.animations@.len(),
            d == raw_view(*p),
            out@.map_values(|a: GltfAnimation| animation_plain(a)) == doc_animations(d.2).subrange(0, i as int),
        decreases p.animations@.len() - i,
    {
        let an = &p.animations[i];
        assert(an.channels@ == d.2[i as int].1 && an.interpolations@ == d.2[i as int].2);
        let mut channels: Vec<GltfChannel> = Vec::new();
        let mut k: usize = 0;
        while k < an.channels.len()
            invariant
                k <= an.channels@.len(),
                d == raw_view(*p),
                i < p.animations@.len(),
                an.channels@ == d.2[i as int].1,
                an.interpolations@ == d.2[i as int].2,
                channels@ == doc_animations(d.2)[i as int].1.subrange(0, k as int),
            decreases an.channels@.len() - k,
        {
            let (s, node, property) = an.channels[k];
            let interpolation = if s < an.interpolations.len() {
                an.interpolations[s]
            } else {
                0
            };
            channels.push(GltfChannel { node, property, interpolation });
            assert(channels@ =~= doc_animations(d.2)[i as int].1.subrange(0, k + 1));
            k = k + 1;
        }
        assert(channels@ =~= doc_animations(d.2)[i as int].1);
        let anim = GltfAnimation { name: copy_text(&an.name), channels };
        let ghost before = out@;
        out.push(anim);
        assert(out@.map_values(|a: GltfAnimation| animation_plain(a)) =~= before.map_values(
            |a: GltfAnimation| animation_plain(a),
        ).push(animation_plain(anim)));
        assert(out@.map_values(|a: GltfAnimation| animation_plain(a)) =~= doc_animations(d.2).subrange(0, i + 1));
        i = i + 1;
    }
    assert(doc_animations(d.2).subrange(0, p.animations@.len() as int) =~= doc_animations(d.2));
    out
}

fn load_error(detail: &str) -> (e: IoError)
    ensures
        e matches IoError::Parse(m) && m@ == "glTF load failed: "@ + detail@ && starts(m@, "glTF load failed: "@),
{
    let mut m = String::new();
    push_str(&mut m, "glTF load failed: ");
    push_str(&mut m, detail);
    assert(m@.subrange(0, "glTF load failed: "@.len() as int) =~= "glTF load failed: "@);
    IoError::Parse(m)
}

/// The error of bytes that do not hold a readable glTF document: `glTF load failed: ` and what
/// went wrong.
pub open spec fn load_failed(r: Result<GltfDocument, IoError>) -> bool {
    r matches Err(IoError::Parse(m)) && starts(m@, "glTF load failed: "@)
}

/// Parses glTF or GLB bytes into a document: its node children, its skins (each joint with its
/// node's name) and its animations (each channel with its target node, property code and
/// sampler interpolation code), as the parser reads them (see [`gltf_document`]). Fails with a
/// `glTF load failed: ` parse error when the bytes are a GLB whose header declares a length
/// shorter than itself, when they do not parse, or when a child, joint or channel target names
/// no node (the document is not validated otherwise).
pub fn scene_from_slice(data: &[u8]) -> (r: Result<GltfDocument, IoError>)
    ensures
        short_glb(data@) ==> (r matches Err(IoError::Parse(m)) && m@ == "glTF load failed: "@
            + "GLB header declares a length shorter than the header"@),
        !short_glb(data@) ==> match gltf_document(data@) {
            Err(t) => r matches Err(IoError::Parse(m)) && m@ == "glTF load failed: "@ + t,
            Ok(d) => if indices_in_range(d) {
                r matches Ok(p) && p.children@.map_values(|l: Vec<usize>| l@) == d.0.map_values(
                    |n: (Option<Seq<char>>, Seq<usize>)| n.1,
                ) && p.skins@.map_values(|s: GltfSkin| skin_plain(s)) == doc_skins(d.0, d.1)
                    && p.animations@.map_values(|a: GltfAnimation| animation_plain(a)) == doc_animations(d.2)
            } else {
                r matches Err(IoError::Parse(m)) && m@ == "glTF load failed: node index out of range"@
            },
        },
{
    proof {
        reveal_strlit("glTF load failed: ");
    }
    if data.len() >= 12 && data[0] == 0x67u8 && data[1] == 0x6Cu8 && data[2] == 0x54u8 && data[3] == 0x46u8
        && data[8] < 12 && data[9] == 0 && data[10] == 0 && data[11] == 0 {
        let e = load_error("GLB header declares a length shorter than the header");
        proof {
            reveal_strlit("GLB header declares a length shorter than the header");
        }
        return Err(e);
    }
    let parts = match read_gltf(data) {
        Ok(p) => p,
        Err(detail) => {
            return Err(load_error(detail.as_str()));
        },
    };
    if !check_indices(&parts) {
        let e = load_error("node index out of range");
        proof {
            reveal_strlit("node index out of range");
            reveal_strlit("glTF load failed: node index out of range");
        }
        return Err(e);
    }
    let ghost d = raw_view(parts);
    let mut children: Vec<Vec<usize>> = Vec::new();
    let mut i: usize = 0;
    while i < parts.nodes.len()
        invariant
            i <= parts.nodes@.len(),
            d == raw_view(parts),
            children@.map_values(|l: Vec<usize>| l@) == d.0.map_values(|n: (Option<Seq<char>>, Seq<usize>)| n.1).subrange(
                0,
                i as int,
            ),
        decreases parts.nodes@.len() - i,
    {
        let c = parts.nodes[i].children.clone();
        let ghost before = children@;
        children.push(c);
        assert(children@.map_values(|l: Vec<usize>| l@) =~= before.map_values(|l: Vec<usize>| l@).push(c@));
        assert(children@.map_values(|l: Vec<usize>| l@) =~= d.0.map_values(|n: (Option<Seq<char>>, Seq<usize>)| n.1).subrange(
            0,
            i + 1,
        ));
        i = i + 1;
    }
    assert(d.0.map_values(|n: (Option<Seq<char>>, Seq<usize>)| n.1).subrange(0, parts.nodes@.len() as int)
        =~= d.0.map_values(|n: (Option<Seq<char>>, Seq<usize>)| n.1));
    let skins = plain_skins(&parts);
    let animations = plain_animations(&parts);
    Ok(GltfDocument { gltf: parts.gltf, children, skins, animations })
}

/// The skeletons of a document's skins and the joint lookup entries (see
/// [`convert_skeletons`]), after rejecting a skin with more than [`MAX_JOINTS`] joints with the
/// message of [`check_joint_counts`].
pub fn scene_skeletons(doc: &GltfDocument) -> (r: Result<(Vec<Skeleton>, Vec<(usize, usize, usize)>), IoError>)
    ensures
        match first_oversize(doc.skins@, MAX_JOINTS, 0) {
            Some(i) => r matches Err(IoError::Parse(m)) && m@ == oversize_message(doc.skins@[i], MAX_JOINTS),
            None => r matches Ok(v) && v.0@.map_values(|s: Skeleton| skeleton_view(s)) == skeletons_of(
                doc.children@.map_values(|l: Vec<usize>| l@),
                doc.skins@,
            ) && v.1@ == all_entries(doc.children@.map_values(|l: Vec<usize>| l@), doc.skins@, doc.skins@.len()),
        },
        r matches Ok(v) ==> skeletons_fit(v.1@),
{
    let count = doc.skins.len();
    proof {
        let ch = doc.children@.map_values(|l: Vec<usize>| l@);
        lemma_lookup_entries(ch, doc.skins@, doc.skins@.len());
        let lk = all_entries(ch, doc.skins@, doc.skins@.len());
        assert forall|k: int| 0 <= k < lk.len() implies (#[trigger] lk[k]).1 < usize::MAX by {
            assert(lk[k].1 < count);
        }
        assert(skeletons_fit(lk));
    }
    match check_joint_counts(doc.skins.as_slice(), MAX_JOINTS) {
        Ok(()) => Ok(convert_skeletons(doc.children.as_slice(), doc.skins.as_slice())),
        Err(e) => Err(e),
    }
}

} // verus!
