//! glTF skins as joint hierarchies: parents from the node tree, and a joint order in which
//! parents come before their children.
use vstd::prelude::*;

use crate::bvh::{Joint, Skeleton};
use crate::error::IoError;
use crate::fbx::{lemma_unvisited_mark, unvisited};
use crate::text::{decimal, push_decimal, push_str};

verus! {

/// The skin positions whose parent is `p`, among the first `k`, in increasing order.
pub open spec fn children_below(parents: Seq<Option<usize>>, p: int, k: nat) -> Seq<usize>
    decreases k,
{
    if k == 0 {
        Seq::empty()
    } else {
        children_below(parents, p, (k - 1) as nat) + if parents[k - 1] == Some(p as usize) {
            seq![(k - 1) as usize]
        } else {
            Seq::empty()
        }
    }
}

/// The children of every skin position, each list in increasing order.
pub open spec fn child_lists(parents: Seq<Option<usize>>) -> Seq<Seq<usize>> {
    Seq::new(parents.len(), |p: int| children_below(parents, p, parents.len()))
}

/// A depth-first walk from `v` over the lists `ch`, marks `vis` telling which positions were
/// already reached: an unreached `v` is marked and emitted, then each of its children is
/// walked in turn. Gives the marks and the positions emitted. `fuel` bounds the depth; a
/// walk with more fuel than unmarked positions never runs out.
pub open spec fn dfs_node(ch: Seq<Seq<usize>>, v: int, vis: Seq<bool>, fuel: nat) -> (Seq<bool>, Seq<usize>)
    decreases fuel, 0int, 0int,
{
    if fuel == 0 || v < 0 || v >= vis.len() || vis[v] {
        (vis, Seq::empty())
    } else {
        let (vis2, o) = dfs_children(ch, v, 0, vis.update(v, true), (fuel - 1) as nat);
        (vis2, seq![v as usize] + o)
    }
}

/// The walks of the children of `v` from its `k`-th on, in turn.
pub open spec fn dfs_children(ch: Seq<Seq<usize>>, v: int, k: int, vis: Seq<bool>, fuel: nat) -> (
    Seq<bool>,
    Seq<usize>,
)
    decreases fuel, 1int, if 0 <= v < ch.len() { ch[v].len() - k } else { 0 },
{
    if v < 0 || v >= ch.len() || k < 0 || k >= ch[v].len() {
        (vis, Seq::empty())
    } else {
        let (vis1, o1) = dfs_node(ch, ch[v][k] as int, vis, fuel);
        let (vis2, o2) = dfs_children(ch, v, k + 1, vis1, fuel);
        (vis2, o1 + o2)
    }
}

/// Positions marked in `a` stay marked in `b`.
pub open spec fn grows(a: Seq<bool>, b: Seq<bool>) -> bool {
    a.len() == b.len() && forall|i: int| 0 <= i < a.len() && #[trigger] a[i] ==> b[i]
}

/// Lists whose entries are all below `n`.
pub open spec fn lists_below(ch: Seq<Seq<usize>>, n: nat) -> bool {
    ch.len() == n && forall|p: int, k: int| 0 <= p < ch.len() && 0 <= k < ch[p].len() ==> #[trigger] ch[p][k] < n
}

pub proof fn lemma_grows_unvisited(a: Seq<bool>, b: Seq<bool>)
    requires
        grows(a, b),
    ensures
        unvisited(b) <= unvisited(a),
    decreases a.len(),
{
    if a.len() > 0 {
        lemma_grows_unvisited(a.drop_last(), b.drop_last());
    }
}

fn dfs_preorder(
    node: usize,
    children: &Vec<Vec<usize>>,
    order: &mut Vec<usize>,
    visited: &mut Vec<bool>,
    Ghost(fuel): Ghost<nat>,
)
    requires
        old(visited)@.len() == children@.len(),
        lists_below(children@.map_values(|l: Vec<usize>| l@), children@.len()),
        node < children@.len(),
        fuel > unvisited(old(visited)@),
    ensures
        (final(visited)@, final(order)@) == ({
            let (v, o) = dfs_node(children@.map_values(|l: Vec<usize>| l@), node as int, old(visited)@, fuel);
            (v, old(order)@ + o)
        }),
        grows(old(visited)@, final(visited)@),
    decreases fuel,
{
    let ghost ch = children@.map_values(|l: Vec<usize>| l@);
    if visited[node] {
        assert(old(order)@ + Seq::<usize>::empty() =~= old(order)@);
        return;
    }
    proof {
        lemma_unvisited_mark(visited@, node as int);
    }
    visited.set(node, true);
    order.push(node);
    let ghost start_vis = visited@;
    let ghost start_order = order@;
    let kids = &children[node];
    assert(kids@ == ch[node as int]);
    let mut k: usize = 0;
    while k < kids.len()
        invariant
            ch == children@.map_values(|l: Vec<usize>| l@),
            lists_below(ch, children@.len()),
            kids@ == ch[node as int],
            node < children@.len(),
            k <= kids@.len(),
            visited@.len() == children@.len(),
            grows(start_vis, visited@),
            grows(old(visited)@, visited@),
            fuel - 1 > unvisited(visited@),
            dfs_children(ch, node as int, 0, start_vis, (fuel - 1) as nat) == ({
                let (v, o) = dfs_children(ch, node as int, k as int, visited@, (fuel - 1) as nat);
                (v, order@.subrange(start_order.len() as int, order@.len() as int) + o)
            }),
            start_order.len() <= order@.len(),
            order@.subrange(0, start_order.len() as int) == start_order,
        decreases kids@.len() - k,
    {
        let c = kids[k];
        assert(c < children@.len());
        let ghost before_vis = visited@;
        let ghost before_order = order@;
        dfs_preorder(c, children, order, visited, Ghost((fuel - 1) as nat));
        proof {
            lemma_grows_unvisited(before_vis, visited@);
            let (v1, o1) = dfs_node(ch, c as int, before_vis, (fuel - 1) as nat);
            assert(order@ == before_order + o1);
            assert(order@.subrange(start_order.len() as int, order@.len() as int) =~= before_order.subrange(
                start_order.len() as int,
                before_order.len() as int,
            ) + o1);
            assert(order@.subrange(0, start_order.len() as int) =~= before_order.subrange(0, start_order.len() as int));
        }
        k = k + 1;
    }
    proof {
        assert(order@.subrange(0, start_order.len() as int) == start_order);
        assert(order@ =~= start_order + order@.subrange(start_order.len() as int, order@.len() as int));
        assert(start_order =~= old(order)@ + seq![node]);
    }
}

/// The walks from the roots among the first `r` positions (those without a parent), in
/// turn, starting with nothing marked.
pub open spec fn roots_walk(parents: Seq<Option<usize>>, r: nat) -> (Seq<bool>, Seq<usize>)
    decreases r,
{
    if r == 0 {
        (Seq::new(parents.len(), |i: int| false), Seq::empty())
    } else {
        let (vis, o) = roots_walk(parents, (r - 1) as nat);
        if parents[r - 1] is None {
            let (vis2, o2) = dfs_node(child_lists(parents), r - 1, vis, (parents.len() + 1) as nat);
            (vis2, o + o2)
        } else {
            (vis, o)
        }
    }
}

/// The positions among the first `k` left unmarked, in increasing order.
pub open spec fn unmarked(vis: Seq<bool>, k: nat) -> Seq<usize>
    decreases k,
{
    if k == 0 {
        Seq::empty()
    } else {
        unmarked(vis, (k - 1) as nat) + if vis[k - 1] {
            Seq::<usize>::empty()
        } else {
            seq![(k - 1) as usize]
        }
    }
}

/// The joint order of a skin whose position `i` has parent position `parents[i]`: a
/// depth-first walk from each root in increasing order, children in increasing order, then
/// the positions no walk reached (which lie on or below a parent cycle) in increasing order.
pub open spec fn joint_order(parents: Seq<Option<usize>>) -> Seq<usize> {
    let (vis, o) = roots_walk(parents, parents.len());
    o + unmarked(vis, parents.len())
}

/// Parent positions that are positions.
pub open spec fn parents_below(parents: Seq<Option<usize>>) -> bool {
    forall|i: int| 0 <= i < parents.len() ==> (#[trigger] parents[i] matches Some(p) ==> p < parents.len())
}

/// The child lists of a skin's positions (see [`child_lists`]).
fn build_children(parents: &[Option<usize>]) -> (r: Vec<Vec<usize>>)
    requires
        parents_below(parents@),
    ensures
        r@.map_values(|l: Vec<usize>| l@) == child_lists(parents@),
        lists_below(r@.map_values(|l: Vec<usize>| l@), parents@.len()),
{
    let n = parents.len();
    let mut r: Vec<Vec<usize>> = Vec::new();
    let mut p: usize = 0;
    while p < n
        invariant
            p <= n,
            n == parents@.len(),
            r@.len() == p,
            forall|q: int| 0 <= q < p ==> (#[trigger] r@[q])@ == children_below(parents@, q, n as nat),
        decreases n - p,
    {
        let mut l: Vec<usize> = Vec::new();
        let mut i: usize = 0;
        while i < n
            invariant
                i <= n,
                n == parents@.len(),
                l@ == children_below(parents@, p as int, i as nat),
            decreases n - i,
        {
            if parents[i] == Some(p) {
                l.push(i);
            }
            assert(l@ =~= children_below(parents@, p as int, (i + 1) as nat));
            i = i + 1;
        }
        r.push(l);
        p = p + 1;
    }
    let ghost ch = r@.map_values(|l: Vec<usize>| l@);
    assert(ch =~= child_lists(parents@));
    assert forall|q: int, k: int| 0 <= q < ch.len() && 0 <= k < ch[q].len() implies #[trigger] ch[q][k] < n by {
        lemma_children_below(parents@, q, n as nat);
    }
    r
}

pub proof fn lemma_children_below(parents: Seq<Option<usize>>, p: int, k: nat)
    requires
        k <= parents.len(),
        k <= usize::MAX + 1,
    ensures
        forall|j: int| 0 <= j < children_below(parents, p, k).len() ==> #[trigger] children_below(parents, p, k)[j] < k
            && parents[children_below(parents, p, k)[j] as int] == Some(p as usize),
        forall|i: int| 0 <= i < k && parents[i] == Some(p as usize) ==> #[trigger] children_below(parents, p, k).contains(
            i as usize,
        ),
    decreases k,
{
    if k > 0 {
        lemma_children_below(parents, p, (k - 1) as nat);
        let a = children_below(parents, p, (k - 1) as nat);
        let c = children_below(parents, p, k);
        assert forall|j: int| 0 <= j < c.len() implies #[trigger] c[j] < k && parents[c[j] as int] == Some(p as usize) by {
            if j < a.len() {
                assert(c[j] == a[j]);
            }
        }
        assert forall|i: int| 0 <= i < k && parents[i] == Some(p as usize) implies #[trigger] c.contains(i as usize) by {
            if i < k - 1 {
                assert(a.contains(i as usize));
                let t = choose|t: int| 0 <= t < a.len() && a[t] == i as usize;
                assert(c[t] == i as usize);
            } else {
                assert(c[a.len() as int] == i as usize);
            }
        }
    }
}

/// The joint order of a skin (see [`joint_order`]): `r[j]` is the skin position of joint `j`.
pub fn skin_joint_order(parents: &[Option<usize>]) -> (r: Vec<usize>)
    requires
        parents_below(parents@),
    ensures
        r@ == joint_order(parents@),
{
    let n = parents.len();
    let children = build_children(parents);
    let ghost ch = children@.map_values(|l: Vec<usize>| l@);
    let mut visited: Vec<bool> = Vec::new();
    let mut i: usize = 0;
    while i < n
        invariant
            i <= n,
            visited@ == Seq::new(i as nat, |j: int| false),
        decreases n - i,
    {
        visited.push(false);
        assert(visited@ =~= Seq::new((i + 1) as nat, |j: int| false));
        i = i + 1;
    }
    let mut order: Vec<usize> = Vec::new();
    let mut root: usize = 0;
    while root < n
        invariant
            root <= n,
            n == parents@.len(),
            ch == children@.map_values(|l: Vec<usize>| l@),
            ch == child_lists(parents@),
            lists_below(ch, n as nat),
            visited@.len() == n,
            (visited@, order@) == roots_walk(parents@, root as nat),
        decreases n - root,
    {
        if parents[root].is_none() {
            proof {
                lemma_unvisited_bound(visited@);
            }
            dfs_preorder(root, &children, &mut order, &mut visited, Ghost((n + 1) as nat));
        }
        root = root + 1;
    }
    let ghost vis = visited@;
    let mut k: usize = 0;
    while k < n
        invariant
            k <= n,
            n == parents@.len(),
            vis.len() == n,
            visited@ == vis,
            order@ == roots_walk(parents@, n as nat).1 + unmarked(vis, k as nat),
            vis == roots_walk(parents@, n as nat).0,
        decreases n - k,
    {
        if !visited[k] {
            order.push(k);
        }
        assert(order@ =~= roots_walk(parents@, n as nat).1 + unmarked(vis, (k + 1) as nat));
        k = k + 1;
    }
    order
}

pub proof fn lemma_unvisited_bound(v: Seq<bool>)
    ensures
        unvisited(v) <= v.len(),
    decreases v.len(),
{
    if v.len() > 0 {
        lemma_unvisited_bound(v.drop_last());
    }
}

/// A skin of a glTF document as plain values: its name, when it has one, and its joints in
/// skin order, each as its node index and the node's name, when it has one.
pub struct GltfSkin {
    pub name: Option<String>,
    pub joints: Vec<(usize, Option<String>)>,
}

/// A name, or the empty text for none.
pub open spec fn name_text(n: Option<String>) -> Seq<char> {
    match n {
        Some(s) => s@,
        None => Seq::empty(),
    }
}

/// The last of the first `k` nodes whose children list holds node `c`: `c`'s parent.
pub open spec fn holder(ch: Seq<Seq<usize>>, c: usize, k: nat) -> Option<usize>
    decreases k,
{
    if k == 0 {
        None
    } else if ch[k - 1].contains(c) {
        Some((k - 1) as usize)
    } else {
        holder(ch, c, (k - 1) as nat)
    }
}

/// The last of the first `k` positions of `js` that hold node `p`.
pub open spec fn last_pos(js: Seq<usize>, p: usize, k: nat) -> Option<usize>
    decreases k,
{
    if k == 0 {
        None
    } else if js[k - 1] == p {
        Some((k - 1) as usize)
    } else {
        last_pos(js, p, (k - 1) as nat)
    }
}

/// The parent position of each position of a skin whose joints are the nodes `js`, in a
/// document whose nodes have the children lists `ch`: the position (the last one) of the
/// joint's parent node, when that node is a joint of the skin.
pub open spec fn skin_parents(ch: Seq<Seq<usize>>, js: Seq<usize>) -> Seq<Option<usize>> {
    Seq::new(
        js.len(),
        |i: int|
            match holder(ch, js[i], ch.len()) {
                Some(p) => last_pos(js, p, js.len()),
                None => None,
            },
    )
}

/// The last joint among the first `k` of `order` placed at position `s`, 0 when none.
pub open spec fn joint_of(order: Seq<usize>, s: int, k: nat) -> usize
    decreases k,
{
    if k == 0 {
        0
    } else if order[k - 1] == s {
        (k - 1) as usize
    } else {
        joint_of(order, s, (k - 1) as nat)
    }
}

/// The node indices of a skin's joints.
pub open spec fn joint_nodes(sk: GltfSkin) -> Seq<usize> {
    sk.joints@.map_values(|j: (usize, Option<String>)| j.0)
}

/// The joints of a skin's skeleton, as names and parent joints: joint `j` is skin position
/// `joint_order(..)[j]`, named after its node (empty when unnamed), its parent the joint its
/// parent position became, as a byte (the joint index modulo 256).
pub open spec fn skin_joints(ch: Seq<Seq<usize>>, sk: GltfSkin) -> Seq<(Seq<char>, Option<u8>)> {
    let par = skin_parents(ch, joint_nodes(sk));
    let ord = joint_order(par);
    Seq::new(
        ord.len(),
        |j: int|
            (
                name_text(sk.joints@[ord[j] as int].1),
                match par[ord[j] as int] {
                    Some(p) => Some((joint_of(ord, p as int, ord.len()) % 256) as u8),
                    None => None,
                },
            ),
    )
}

/// A joint as its name and parent.
pub open spec fn joint_view(j: Joint) -> (Seq<char>, Option<u8>) {
    (j.name@, j.parent)
}

/// A skeleton as its name and joints.
pub open spec fn skeleton_view(s: Skeleton) -> (Seq<char>, Seq<(Seq<char>, Option<u8>)>) {
    (s.name@, s.joints@.map_values(|j: Joint| joint_view(j)))
}

/// The skeleton of a skin: empty and unnamed for a skin without joints; else named after
/// the skin, with the joints of [`skin_joints`].
pub open spec fn skin_skeleton(ch: Seq<Seq<usize>>, sk: GltfSkin) -> (Seq<char>, Seq<(Seq<char>, Option<u8>)>) {
    if sk.joints@.len() == 0 {
        (Seq::empty(), Seq::empty())
    } else {
        (name_text(sk.name), skin_joints(ch, sk))
    }
}

/// The joint lookup entries of skin `si`, in the order they are recorded: for each of its
/// positions, its node, the skin, and the joint the position became.
pub open spec fn skin_entries(ch: Seq<Seq<usize>>, sk: GltfSkin, si: usize) -> Seq<(usize, usize, usize)> {
    let js = joint_nodes(sk);
    let ord = joint_order(skin_parents(ch, js));
    Seq::new(js.len(), |s: int| (js[s], si, joint_of(ord, s, ord.len())))
}

/// The lookup entries of the first `k` skins, in order (a later entry for a node replaces an
/// earlier one).
pub open spec fn all_entries(ch: Seq<Seq<usize>>, skins: Seq<GltfSkin>, k: nat) -> Seq<(usize, usize, usize)>
    decreases k,
{
    if k == 0 {
        Seq::empty()
    } else {
        all_entries(ch, skins, (k - 1) as nat) + skin_entries(ch, skins[k - 1], (k - 1) as usize)
    }
}

/// The parent of node `c` (see [`holder`]).
fn parent_node(children: &[Vec<usize>], c: usize) -> (r: Option<usize>)
    ensures
        r == holder(children@.map_values(|l: Vec<usize>| l@), c, children@.len() as nat),
{
    let ghost ch = children@.map_values(|l: Vec<usize>| l@);
    let mut r: Option<usize> = None;
    let mut k: usize = 0;
    while k < children.len()
        invariant
            k <= children@.len(),
            ch == children@.map_values(|l: Vec<usize>| l@),
            r == holder(ch, c, k as nat),
        decreases children@.len() - k,
    {
        let l = &children[k];
        let mut found = false;
        let mut j: usize = 0;
        while j < l.len()
            invariant
                j <= l@.len(),
                found == exists|t: int| 0 <= t < j && #[trigger] l@[t] == c,
            decreases l@.len() - j,
        {
            if l[j] == c {
                found = true;
            }
            j = j + 1;
        }
        assert(ch[k as int] == l@);
        if found {
            r = Some(k);
        }
        k = k + 1;
    }
    r
}

/// The parent positions of a skin's joints (see [`skin_parents`]).
fn skin_parent_positions(children: &[Vec<usize>], nodes: &[usize]) -> (r: Vec<Option<usize>>)
    ensures
        r@ == skin_parents(children@.map_values(|l: Vec<usize>| l@), nodes@),
        parents_below(r@),
{
    let ghost ch = children@.map_values(|l: Vec<usize>| l@);
    let n = nodes.len();
    let mut r: Vec<Option<usize>> = Vec::new();
    let mut i: usize = 0;
    while i < n
        invariant
            i <= n,
            n == nodes@.len(),
            ch == children@.map_values(|l: Vec<usize>| l@),
            r@ == skin_parents(ch, nodes@).subrange(0, i as int),
            forall|q: int| 0 <= q < i ==> (#[trigger] r@[q] matches Some(p) ==> p < n),
        decreases n - i,
    {
        let pp = match parent_node(children, nodes[i]) {
            Some(p) => {
                let mut found: Option<usize> = None;
                let mut k: usize = 0;
                while k < n
                    invariant
                        k <= n,
                        n == nodes@.len(),
                        found == last_pos(nodes@, p, k as nat),
                        found matches Some(f) ==> f < k,
                    decreases n - k,
                {
                    if nodes[k] == p {
                        found = Some(k);
                    }
                    k = k + 1;
                }
                found
            },
            None => None,
        };
        r.push(pp);
        assert(r@ =~= skin_parents(ch, nodes@).subrange(0, i + 1));
        i = i + 1;
    }
    assert(skin_parents(ch, nodes@).subrange(0, n as int) =~= skin_parents(ch, nodes@));
    r
}

/// The skeleton and lookup entries of skin `si` (see [`skin_skeleton`] and
/// [`skin_entries`]), and its joint order: joint `j` is skin position `order[j]`.
pub fn convert_skin(children: &[Vec<usize>], skin: &GltfSkin, si: usize) -> (r: (Skeleton, Vec<(usize, usize, usize)>, Vec<usize>))
    ensures
        skeleton_view(r.0) == skin_skeleton(children@.map_values(|l: Vec<usize>| l@), *skin),
        r.1@ == if skin.joints@.len() == 0 {
            Seq::empty()
        } else {
            skin_entries(children@.map_values(|l: Vec<usize>| l@), *skin, si)
        },
        skin.joints@.len() > 0 ==> r.2@ == joint_order(
            skin_parents(children@.map_values(|l: Vec<usize>| l@), joint_nodes(*skin)),
        ),
{
    let ghost ch = children@.map_values(|l: Vec<usize>| l@);
    let n = skin.joints.len();
    if n == 0 {
        let sk = Skeleton { name: String::new(), joints: Vec::new() };
        assert(skeleton_view(sk).1 =~= Seq::<(Seq<char>, Option<u8>)>::empty());
        return (sk, Vec::new(), Vec::new());
    }
    let mut nodes: Vec<usize> = Vec::new();
    let mut i: usize = 0;
    while i < n
        invariant
            i <= n,
            n == skin.joints@.len(),
            nodes@ == joint_nodes(*skin).subrange(0, i as int),
        decreases n - i,
    {
        nodes.push(skin.joints[i].0);
        assert(nodes@ =~= joint_nodes(*skin).subrange(0, i + 1));
        i = i + 1;
    }
    assert(nodes@ =~= joint_nodes(*skin));
    let parents = skin_parent_positions(children, nodes.as_slice());
    let order = skin_joint_order(parents.as_slice());
    let ghost ord = order@;
    proof {
        lemma_joint_order_len(parents@);
    }
    let m = order.len();
    let mut joint_at: Vec<usize> = Vec::new();
    let mut s: usize = 0;
    while s < n
        invariant
            s <= n,
            joint_at@.len() == s,
            forall|t: int| 0 <= t < s ==> #[trigger] joint_at@[t] == 0,
        decreases n - s,
    {
        joint_at.push(0);
        s = s + 1;
    }
    let mut j: usize = 0;
    while j < m
        invariant
            j <= m,
            m == ord.len(),
            order@ == ord,
            joint_at@.len() == n,
            n == parents@.len(),
            forall|q: int| 0 <= q < ord.len() ==> #[trigger] ord[q] < n,
            forall|t: int| 0 <= t < n ==> #[trigger] joint_at@[t] == joint_of(ord, t, j as nat),
        decreases m - j,
    {
        joint_at.set(order[j], j);
        j = j + 1;
    }
    let mut joints: Vec<Joint> = Vec::new();
    let mut q: usize = 0;
    while q < m
        invariant
            q <= m,
            m == ord.len(),
            order@ == ord,
            n == parents@.len(),
            n == skin.joints@.len(),
            joint_at@.len() == n,
            parents_below(parents@),
            forall|q: int| 0 <= q < ord.len() ==> #[trigger] ord[q] < n,
            forall|t: int| 0 <= t < n ==> #[trigger] joint_at@[t] == joint_of(ord, t, m as nat),
            parents@ == skin_parents(ch, joint_nodes(*skin)),
            ord == joint_order(parents@),
            joints@.map_values(|j: Joint| joint_view(j)) == skin_joints(ch, *skin).subrange(0, q as int),
        decreases m - q,
    {
        let sp = order[q];
        let name = match &skin.joints[sp].1 {
            Some(t) => t.clone(),
            None => String::new(),
        };
        assert(name@ == name_text(skin.joints@[sp as int].1));
        let parent = match parents[sp] {
            Some(p) => Some((joint_at[p] % 256) as u8),
            None => None,
        };
        let jt = Joint { name, parent };
        assert(joint_view(jt) == skin_joints(ch, *skin)[q as int]);
        let ghost before = joints@;
        joints.push(jt);
        assert(joints@.map_values(|j: Joint| joint_view(j)) =~= before.map_values(|j: Joint| joint_view(j)).push(
            joint_view(jt),
        ));
        assert(joints@.map_values(|j: Joint| joint_view(j)) =~= skin_joints(ch, *skin).subrange(0, q + 1));
        q = q + 1;
    }
    assert(skin_joints(ch, *skin).subrange(0, m as int) =~= skin_joints(ch, *skin));
    let sname = match &skin.name {
        Some(t) => t.clone(),
        None => String::new(),
    };
    let mut entries: Vec<(usize, usize, usize)> = Vec::new();
    let mut t: usize = 0;
    while t < n
        invariant
            t <= n,
            n == nodes@.len(),
            nodes@ == joint_nodes(*skin),
            joint_at@.len() == n,
            forall|t: int| 0 <= t < n ==> #[trigger] joint_at@[t] == joint_of(ord, t, m as nat),
            m == ord.len(),
            ord == joint_order(skin_parents(ch, joint_nodes(*skin))),
            entries@ == skin_entries(ch, *skin, si).subrange(0, t as int),
        decreases n - t,
    {
        entries.push((nodes[t], si, joint_at[t]));
        assert(entries@ =~= skin_entries(ch, *skin, si).subrange(0, t + 1));
        t = t + 1;
    }
    assert(skin_entries(ch, *skin, si).subrange(0, n as int) =~= skin_entries(ch, *skin, si));
    (Skeleton { name: sname, joints }, entries, order)
}

/// The skeletons of a document's skins (see [`skin_skeleton`]).
pub open spec fn skeletons_of(ch: Seq<Seq<usize>>, skins: Seq<GltfSkin>) -> Seq<(Seq<char>, Seq<(Seq<char>, Option<u8>)>)> {
    Seq::new(skins.len(), |i: int| skin_skeleton(ch, skins[i]))
}

/// The skeletons of a glTF document whose nodes have the children lists `children`, one per
/// skin (see [`skin_skeleton`]), and the joint lookup entries (node, skin, joint) in the
/// order they are recorded (see [`all_entries`]).
pub fn convert_skeletons(children: &[Vec<usize>], skins: &[GltfSkin]) -> (r: (Vec<Skeleton>, Vec<(usize, usize, usize)>))
    ensures
        r.0@.map_values(|s: Skeleton| skeleton_view(s)) == skeletons_of(children@.map_values(|l: Vec<usize>| l@), skins@),
        r.1@ == all_entries(children@.map_values(|l: Vec<usize>| l@), skins@, skins@.len()),
{
    let ghost ch = children@.map_values(|l: Vec<usize>| l@);
    let mut skeletons: Vec<Skeleton> = Vec::new();
    let mut entries: Vec<(usize, usize, usize)> = Vec::new();
    let mut i: usize = 0;
    while i < skins.len()
        invariant
            i <= skins@.len(),
            ch == children@.map_values(|l: Vec<usize>| l@),
            skeletons@.map_values(|s: Skeleton| skeleton_view(s)) == skeletons_of(ch, skins@).subrange(0, i as int),
            entries@ == all_entries(ch, skins@, i as nat),
        decreases skins@.len() - i,
    {
        let (sk, es, _order) = convert_skin(children, &skins[i], i);
        let ghost before = skeletons@;
        let ghost view = skeleton_view(sk);
        skeletons.push(sk);
        assert(skeletons@.map_values(|s: Skeleton| skeleton_view(s)) =~= before.map_values(|s: Skeleton| skeleton_view(s)).push(
            view,
        ));
        assert(skeletons@.map_values(|s: Skeleton| skeleton_view(s)) =~= skeletons_of(ch, skins@).subrange(0, i + 1));
        let ghost eb = entries@;
        let mut k: usize = 0;
        while k < es.len()
            invariant
                k <= es@.len(),
                entries@ == eb + es@.subrange(0, k as int),
            decreases es@.len() - k,
        {
            entries.push(es[k]);
            assert(entries@ =~= eb + es@.subrange(0, k + 1));
            k = k + 1;
        }
        proof {
            assert(es@.subrange(0, es@.len() as int) =~= es@);
            if skins@[i as int].joints@.len() == 0 {
                assert(skin_entries(ch, skins@[i as int], i) =~= Seq::<(usize, usize, usize)>::empty());
            }
            assert(entries@ =~= all_entries(ch, skins@, (i + 1) as nat));
        }
        i = i + 1;
    }
    assert(skeletons_of(ch, skins@).subrange(0, skins@.len() as int) =~= skeletons_of(ch, skins@));
    (skeletons, entries)
}

/// The first skin at or after `k` with more than `max` joints.
pub open spec fn first_oversize(skins: Seq<GltfSkin>, max: usize, k: int) -> Option<int>
    decreases skins.len() - k,
{
    if k < 0 || k >= skins.len() {
        None
    } else if skins[k].joints@.len() > max {
        Some(k)
    } else {
        first_oversize(skins, max, k + 1)
    }
}

/// The error text for a skin with more joints than a skinning palette of `max` joints holds.
pub open spec fn oversize_message(sk: GltfSkin, max: usize) -> Seq<char> {
    "skin '"@ + match sk.name {
        Some(t) => t@,
        None => "<unnamed>"@,
    } + "' has "@ + decimal(sk.joints@.len()) + " joints, exceeds MAX_JOINTS = "@ + decimal(max as nat)
}

/// Checks that no skin has more than `max_joints` joints (the joint indices of vertices are
/// bytes); the first skin with more gives a parse error (see [`oversize_message`]).
pub fn check_joint_counts(skins: &[GltfSkin], max_joints: usize) -> (r: Result<(), IoError>)
    ensures
        match first_oversize(skins@, max_joints, 0) {
            Some(i) => r matches Err(IoError::Parse(m)) && m@ == oversize_message(skins@[i], max_joints),
            None => r is Ok,
        },
{
    let mut i: usize = 0;
    while i < skins.len()
        invariant
            i <= skins@.len(),
            first_oversize(skins@, max_joints, 0) == first_oversize(skins@, max_joints, i as int),
        decreases skins@.len() - i,
    {
        let count = skins[i].joints.len();
        if count > max_joints {
            let mut m = String::new();
            push_str(&mut m, "skin '");
            match &skins[i].name {
                Some(t) => push_str(&mut m, t.as_str()),
                None => push_str(&mut m, "<unnamed>"),
            }
            push_str(&mut m, "' has ");
            push_decimal(&mut m, count);
            push_str(&mut m, " joints, exceeds MAX_JOINTS = ");
            push_decimal(&mut m, max_joints);
            assert(m@ =~= oversize_message(skins@[i as int], max_joints));
            return Err(IoError::Parse(m));
        }
        i = i + 1;
    }
    Ok(())
}

/// What a walk emits: each position at most once, exactly those it marks.
pub open spec fn walk_ok(vis: Seq<bool>, vis2: Seq<bool>, o: Seq<usize>, n: nat) -> bool {
    &&& grows(vis, vis2)
    &&& vis.len() == n
    &&& o.len() + unvisited(vis2) == unvisited(vis)
    &&& forall|q: int| 0 <= q < o.len() ==> #[trigger] o[q] < n && vis2[o[q] as int] && !vis[o[q] as int]
    &&& forall|a: int, b: int| 0 <= a < b < o.len() ==> o[a] != o[b]
    &&& forall|i: int| 0 <= i < n && vis2[i] && !vis[i] ==> #[trigger] o.contains(i as usize)
}

pub proof fn lemma_walk_concat(v0: Seq<bool>, v1: Seq<bool>, v2: Seq<bool>, o1: Seq<usize>, o2: Seq<usize>, n: nat)
    requires
        walk_ok(v0, v1, o1, n),
        walk_ok(v1, v2, o2, n),
    ensures
        walk_ok(v0, v2, o1 + o2, n),
{
    let o = o1 + o2;
    assert forall|q: int| 0 <= q < o.len() implies #[trigger] o[q] < n && v2[o[q] as int] && !v0[o[q] as int] by {
        if q < o1.len() {
            assert(o[q] == o1[q]);
        } else {
            assert(o[q] == o2[q - o1.len()]);
        }
    }
    assert forall|a: int, b: int| 0 <= a < b < o.len() implies o[a] != o[b] by {
        if b < o1.len() {
            assert(o[a] == o1[a] && o[b] == o1[b]);
        } else if a >= o1.len() {
            assert(o[a] == o2[a - o1.len()] && o[b] == o2[b - o1.len()]);
        } else {
            assert(o[a] == o1[a] && o[b] == o2[b - o1.len()]);
            assert(v1[o1[a] as int]);
            assert(!v1[o2[b - o1.len()] as int]);
        }
    }
    assert forall|i: int| 0 <= i < n && v2[i] && !v0[i] implies #[trigger] o.contains(i as usize) by {
        if v1[i] {
            assert(o1.contains(i as usize));
            let t = choose|t: int| 0 <= t < o1.len() && o1[t] == i as usize;
            assert(o[t] == i as usize);
        } else {
            assert(o2.contains(i as usize));
            let t = choose|t: int| 0 <= t < o2.len() && o2[t] == i as usize;
            assert(o[o1.len() + t] == i as usize);
        }
    }
}

pub proof fn lemma_dfs_node(ch: Seq<Seq<usize>>, v: int, vis: Seq<bool>, fuel: nat, n: nat)
    requires
        lists_below(ch, n),
        n <= usize::MAX,
        vis.len() == n,
    ensures
        walk_ok(vis, dfs_node(ch, v, vis, fuel).0, dfs_node(ch, v, vis, fuel).1, n),
    decreases fuel, 0int, 0int,
{
    if fuel == 0 || v < 0 || v >= vis.len() || vis[v] {
        assert(walk_ok(vis, vis, Seq::<usize>::empty(), n));
    } else {
        let vis1 = vis.update(v, true);
        lemma_unvisited_mark(vis, v);
        lemma_dfs_children(ch, v, 0, vis1, (fuel - 1) as nat, n);
        let (vis2, o2) = dfs_children(ch, v, 0, vis1, (fuel - 1) as nat);
        let head = seq![v as usize];
        assert(walk_ok(vis, vis1, head, n)) by {
            assert forall|i: int| 0 <= i < n && vis1[i] && !vis[i] implies #[trigger] head.contains(i as usize) by {
                assert(i == v);
                assert(head[0] == i as usize);
            }
        }
        lemma_walk_concat(vis, vis1, vis2, head, o2, n);
    }
}

/// A pre-order walk from `v` (the walk that `dfs_preorder` appends to its order): from a
/// marked `v` it emits nothing and marks nothing; from an unmarked one it emits `v` first.
/// Either way it emits no position twice and none that was marked before, and afterwards a
/// position is marked exactly when it was before or the walk emitted it.
pub proof fn lemma_preorder_walk(ch: Seq<Seq<usize>>, v: int, vis: Seq<bool>, fuel: nat, n: nat)
    requires
        lists_below(ch, n),
        n <= usize::MAX,
        vis.len() == n,
        0 <= v < n,
        fuel > 0,
    ensures
        ({
            let (vis2, o) = dfs_node(ch, v, vis, fuel);
            &&& vis[v] ==> vis2 == vis && o.len() == 0
            &&& !vis[v] ==> o.len() > 0 && o[0] == v as usize
            &&& forall|a: int, b: int| 0 <= a < b < o.len() ==> o[a] != o[b]
            &&& forall|q: int| 0 <= q < o.len() ==> #[trigger] o[q] < n && !vis[o[q] as int]
            &&& vis2.len() == n
            &&& forall|x: int| 0 <= x < n ==> (#[trigger] vis2[x] <==> vis[x] || o.contains(x as usize))
        }),
{
    lemma_dfs_node(ch, v, vis, fuel, n);
    let (vis2, o) = dfs_node(ch, v, vis, fuel);
    assert forall|x: int| 0 <= x < n implies (#[trigger] vis2[x] <==> vis[x] || o.contains(x as usize)) by {
        if o.contains(x as usize) {
            let t = choose|t: int| 0 <= t < o.len() && o[t] == x as usize;
            assert(vis2[o[t] as int]);
        }
    }
}

pub proof fn lemma_dfs_children(ch: Seq<Seq<usize>>, v: int, k: int, vis: Seq<bool>, fuel: nat, n: nat)
    requires
        lists_below(ch, n),
        n <= usize::MAX,
        vis.len() == n,
    ensures
        walk_ok(vis, dfs_children(ch, v, k, vis, fuel).0, dfs_children(ch, v, k, vis, fuel).1, n),
    decreases fuel, 1int, if 0 <= v < ch.len() { ch[v].len() - k } else { 0 },
{
    if v < 0 || v >= ch.len() || k < 0 || k >= ch[v].len() {
        assert(walk_ok(vis, vis, Seq::<usize>::empty(), n));
    } else {
        lemma_dfs_node(ch, ch[v][k] as int, vis, fuel, n);
        let (vis1, o1) = dfs_node(ch, ch[v][k] as int, vis, fuel);
        lemma_dfs_children(ch, v, k + 1, vis1, fuel, n);
        let (vis2, o2) = dfs_children(ch, v, k + 1, vis1, fuel);
        lemma_walk_concat(vis, vis1, vis2, o1, o2, n);
    }
}

/// Nothing marked leaves every position unmarked.
pub proof fn lemma_unvisited_none(n: nat)
    ensures
        unvisited(Seq::new(n, |i: int| false)) == n,
    decreases n,
{
    if n > 0 {
        lemma_unvisited_none((n - 1) as nat);
        assert(Seq::new(n, |i: int| false).drop_last() =~= Seq::new((n - 1) as nat, |i: int| false));
    }
}

pub proof fn lemma_roots_walk(parents: Seq<Option<usize>>, r: nat)
    requires
        parents_below(parents),
        parents.len() <= usize::MAX,
        r <= parents.len(),
    ensures
        walk_ok(Seq::new(parents.len(), |i: int| false), roots_walk(parents, r).0, roots_walk(parents, r).1, parents.len()),
    decreases r,
{
    let n = parents.len();
    let none = Seq::new(n, |i: int| false);
    if r == 0 {
        assert(walk_ok(none, none, Seq::<usize>::empty(), n));
    } else {
        lemma_roots_walk(parents, (r - 1) as nat);
        let (vis, o) = roots_walk(parents, (r - 1) as nat);
        if parents[r - 1] is None {
            let ch = child_lists(parents);
            assert(lists_below(ch, n)) by {
                assert forall|p: int, k: int| 0 <= p < ch.len() && 0 <= k < ch[p].len() implies #[trigger] ch[p][k] < n by {
                    lemma_children_below(parents, p, n);
                }
            }
            lemma_dfs_node(ch, r - 1, vis, (n + 1) as nat, n);
            let (vis2, o2) = dfs_node(ch, r - 1, vis, (n + 1) as nat);
            lemma_walk_concat(none, vis, vis2, o, o2, n);
        }
    }
}

/// The positions left unmarked, as [`unmarked`] lists them, number [`unvisited`].
pub proof fn lemma_unmarked(vis: Seq<bool>, k: nat)
    requires
        k <= vis.len(),
        vis.len() <= usize::MAX,
    ensures
        unmarked(vis, k).len() == unvisited(vis.subrange(0, k as int)),
        forall|q: int| 0 <= q < unmarked(vis, k).len() ==> #[trigger] unmarked(vis, k)[q] < k && !vis[unmarked(vis, k)[q] as int],
        forall|a: int, b: int| 0 <= a < b < unmarked(vis, k).len() ==> unmarked(vis, k)[a] < unmarked(vis, k)[b],
        forall|i: int| 0 <= i < k && !vis[i] ==> #[trigger] unmarked(vis, k).contains(i as usize),
    decreases k,
{
    if k > 0 {
        lemma_unmarked(vis, (k - 1) as nat);
        assert(vis.subrange(0, k as int).drop_last() =~= vis.subrange(0, k - 1));
        let a = unmarked(vis, (k - 1) as nat);
        let u = unmarked(vis, k);
        assert forall|q: int| 0 <= q < u.len() implies #[trigger] u[q] < k && !vis[u[q] as int] by {
            if q < a.len() {
                assert(u[q] == a[q]);
            }
        }
        assert forall|x: int, y: int| 0 <= x < y < u.len() implies u[x] < u[y] by {
            if y < a.len() {
                assert(u[x] == a[x] && u[y] == a[y]);
            } else {
                assert(u[x] == a[x]);
            }
        }
        assert forall|i: int| 0 <= i < k && !vis[i] implies #[trigger] u.contains(i as usize) by {
            if i < k - 1 {
                assert(a.contains(i as usize));
                let t = choose|t: int| 0 <= t < a.len() && a[t] == i as usize;
                assert(u[t] == i as usize);
            } else {
                assert(u[a.len() as int] == i as usize);
            }
        }
    }
}

/// A joint order is a permutation of the skin positions: every position appears in it
/// exactly once.
pub proof fn lemma_joint_order_permutation(parents: Seq<Option<usize>>)
    requires
        parents_below(parents),
        parents.len() <= usize::MAX,
    ensures
        joint_order(parents).len() == parents.len(),
        forall|q: int| 0 <= q < joint_order(parents).len() ==> #[trigger] joint_order(parents)[q] < parents.len(),
        forall|a: int, b: int| 0 <= a < b < joint_order(parents).len() ==> joint_order(parents)[a] != joint_order(parents)[b],
        forall|i: int| 0 <= i < parents.len() ==> #[trigger] joint_order(parents).contains(i as usize),
{
    let n = parents.len();
    lemma_roots_walk(parents, n);
    lemma_unvisited_none(n);
    let (vis, o) = roots_walk(parents, n);
    lemma_unmarked(vis, n);
    assert(vis.subrange(0, n as int) =~= vis);
    let u = unmarked(vis, n);
    let jo = o + u;
    assert(jo == joint_order(parents));
    assert forall|q: int| 0 <= q < jo.len() implies #[trigger] jo[q] < n by {
        if q < o.len() {
            assert(jo[q] == o[q]);
        } else {
            assert(jo[q] == u[q - o.len()]);
        }
    }
    assert forall|a: int, b: int| 0 <= a < b < jo.len() implies jo[a] != jo[b] by {
        if b < o.len() {
            assert(jo[a] == o[a] && jo[b] == o[b]);
        } else if a >= o.len() {
            assert(jo[a] == u[a - o.len()] && jo[b] == u[b - o.len()]);
        } else {
            assert(jo[a] == o[a] && jo[b] == u[b - o.len()]);
            assert(vis[o[a] as int]);
        }
    }
    assert forall|i: int| 0 <= i < n implies #[trigger] jo.contains(i as usize) by {
        if vis[i] {
            assert(o.contains(i as usize));
            let t = choose|t: int| 0 <= t < o.len() && o[t] == i as usize;
            assert(jo[t] == i as usize);
        } else {
            assert(u.contains(i as usize));
            let t = choose|t: int| 0 <= t < u.len() && u[t] == i as usize;
            assert(jo[o.len() + t] == i as usize);
        }
    }
}

/// A joint order holds as many joints as the skin has positions, each a position.
pub proof fn lemma_joint_order_len(parents: Seq<Option<usize>>)
    requires
        parents_below(parents),
        parents.len() <= usize::MAX,
    ensures
        joint_order(parents).len() == parents.len(),
        forall|q: int| 0 <= q < joint_order(parents).len() ==> #[trigger] joint_order(parents)[q] < parents.len(),
{
    lemma_joint_order_permutation(parents);
}

/// Whether the chain of parents from skin position `i` ends at a root within `fuel` steps.
pub open spec fn reaches_root(parents: Seq<Option<usize>>, i: int, fuel: nat) -> bool
    decreases fuel,
{
    match parents[i] {
        None => true,
        Some(p) => fuel > 0 && reaches_root(parents, p as int, (fuel - 1) as nat),
    }
}

/// Entry `b` of `o` has its parent among the entries before it.
pub open spec fn parent_earlier(o: Seq<usize>, parents: Seq<Option<usize>>, b: int) -> bool {
    exists|a: int| 0 <= a < b && parents[o[b] as int] == Some(#[trigger] o[a])
}

/// Every position newly marked from `vis` to `vis2` has all its children marked in `vis2`.
pub open spec fn closed_new(ch: Seq<Seq<usize>>, vis: Seq<bool>, vis2: Seq<bool>) -> bool {
    forall|u: int, k: int|
        0 <= u < vis.len() && vis2[u] && !vis[u] && 0 <= k < ch[u].len() ==> #[trigger] vis2[ch[u][k] as int]
}

/// The shape of a walk's output: after its first entry, the walk from `v`, every entry's
/// parent comes earlier; with enough fuel the walk marks `v`, and every position it marks
/// has all its children marked.
pub proof fn lemma_dfs_node_shape(parents: Seq<Option<usize>>, v: int, vis: Seq<bool>, fuel: nat)
    requires
        parents_below(parents),
        parents.len() <= usize::MAX,
        vis.len() == parents.len(),
        fuel > unvisited(vis),
        0 <= v < parents.len(),
    ensures
        ({
            let (vis2, o) = dfs_node(child_lists(parents), v, vis, fuel);
            &&& o.len() > 0 ==> o[0] == v as usize
            &&& forall|b: int| 1 <= b < o.len() ==> parent_earlier(o, parents, b)
            &&& vis2[v]
            &&& closed_new(child_lists(parents), vis, vis2)
        }),
    decreases fuel, 0int, 0int,
{
    let n = parents.len();
    let ch = child_lists(parents);
    assert(lists_below(ch, n)) by {
        assert forall|p: int, k: int| 0 <= p < ch.len() && 0 <= k < ch[p].len() implies #[trigger] ch[p][k] < n by {
            lemma_children_below(parents, p, n);
        }
    }
    if vis[v] {
    } else {
        let vis1 = vis.update(v, true);
        lemma_unvisited_mark(vis, v);
        lemma_dfs_children_shape(parents, v, 0, vis1, (fuel - 1) as nat);
        lemma_dfs_children(ch, v, 0, vis1, (fuel - 1) as nat, n);
        let (vis2, o2) = dfs_children(ch, v, 0, vis1, (fuel - 1) as nat);
        assert(vis1[v]);
        assert(vis2[v]);
        let o = seq![v as usize] + o2;
        assert forall|b: int| 1 <= b < o.len() implies parent_earlier(o, parents, b) by {
            assert(o[b] == o2[b - 1]);
            if parents[o2[b - 1] as int] == Some(v as usize) {
                assert(o[0] == v as usize);
            } else {
                assert(parent_earlier(o2, parents, b - 1));
                let a = choose|a: int| 0 <= a < b - 1 && parents[o2[b - 1] as int] == Some(#[trigger] o2[a]);
                assert(o[a + 1] == o2[a]);
            }
        }
        assert forall|u: int, k: int|
            0 <= u < vis.len() && vis2[u] && !vis[u] && 0 <= k < ch[u].len() implies #[trigger] vis2[ch[u][k] as int] by {
            if u == v {
            } else {
                assert(!vis1[u]);
            }
        }
    }
}

/// The walks of the children of `v` from the `k`-th: every entry's parent is `v` or comes
/// earlier; with enough fuel, those children end up marked, and every position the walks
/// mark has all its children marked.
pub proof fn lemma_dfs_children_shape(parents: Seq<Option<usize>>, v: int, k: int, vis: Seq<bool>, fuel: nat)
    requires
        parents_below(parents),
        parents.len() <= usize::MAX,
        vis.len() == parents.len(),
        fuel > unvisited(vis),
        0 <= v < parents.len(),
        0 <= k,
    ensures
        ({
            let ch = child_lists(parents);
            let (vis2, o) = dfs_children(ch, v, k, vis, fuel);
            &&& forall|b: int| 0 <= b < o.len() ==> parents[o[b] as int] == Some(v as usize) || parent_earlier(o, parents, b)
            &&& forall|j: int| k <= j < ch[v].len() ==> #[trigger] vis2[ch[v][j] as int]
            &&& closed_new(ch, vis, vis2)
        }),
    decreases fuel, 1int, child_lists(parents)[v].len() - k,
{
    let n = parents.len();
    let ch = child_lists(parents);
    assert(lists_below(ch, n)) by {
        assert forall|p: int, q: int| 0 <= p < ch.len() && 0 <= q < ch[p].len() implies #[trigger] ch[p][q] < n by {
            lemma_children_below(parents, p, n);
        }
    }
    if k < ch[v].len() {
        let c = ch[v][k];
        lemma_children_below(parents, v, n);
        assert(parents[c as int] == Some(v as usize));
        lemma_dfs_node_shape(parents, c as int, vis, fuel);
        lemma_dfs_node(ch, c as int, vis, fuel, n);
        let (vis1, o1) = dfs_node(ch, c as int, vis, fuel);
        lemma_dfs_children_shape(parents, v, k + 1, vis1, fuel);
        let (vis2, o2) = dfs_children(ch, v, k + 1, vis1, fuel);
        lemma_dfs_children(ch, v, k + 1, vis1, fuel, n);
        let o = o1 + o2;
        assert forall|b: int| 0 <= b < o.len() implies parents[o[b] as int] == Some(v as usize) || parent_earlier(o, parents, b) by {
            if b < o1.len() {
                assert(o[b] == o1[b]);
                if b >= 1 {
                    assert(parent_earlier(o1, parents, b));
                    let a = choose|a: int| 0 <= a < b && parents[o1[b] as int] == Some(#[trigger] o1[a]);
                    assert(o[a] == o1[a]);
                }
            } else {
                assert(o[b] == o2[b - o1.len()]);
                if parents[o2[b - o1.len()] as int] != Some(v as usize) {
                    assert(parent_earlier(o2, parents, b - o1.len()));
                    let a = choose|a: int| 0 <= a < b - o1.len() && parents[o2[b - o1.len()] as int] == Some(#[trigger] o2[a]);
                    assert(o[a + o1.len()] == o2[a]);
                }
            }
        }
        assert forall|j: int| k <= j < ch[v].len() implies #[trigger] vis2[ch[v][j] as int] by {
            if j == k {
                assert(vis1[c as int]);
            }
        }
        assert forall|u: int, q: int|
            0 <= u < vis.len() && vis2[u] && !vis[u] && 0 <= q < ch[u].len() implies #[trigger] vis2[ch[u][q] as int] by {
            if vis1[u] {
                assert(vis1[ch[u][q] as int]);
            }
        }
    }
}

/// The walks from the roots: every entry is a root or has its parent earlier; every root
/// among the first `r` is marked, and every marked position has its children marked.
pub proof fn lemma_roots_walk_shape(parents: Seq<Option<usize>>, r: nat)
    requires
        parents_below(parents),
        parents.len() <= usize::MAX,
        r <= parents.len(),
    ensures
        ({
            let ch = child_lists(parents);
            let (vis, o) = roots_walk(parents, r);
            &&& forall|b: int| 0 <= b < o.len() ==> parents[o[b] as int] is None || parent_earlier(o, parents, b)
            &&& forall|i: int| 0 <= i < r && parents[i] is None ==> #[trigger] vis[i]
            &&& closed_new(ch, Seq::new(parents.len(), |i: int| false), vis)
        }),
    decreases r,
{
    let n = parents.len();
    let ch = child_lists(parents);
    let none = Seq::new(n, |i: int| false);
    if r > 0 {
        lemma_roots_walk_shape(parents, (r - 1) as nat);
        lemma_roots_walk(parents, (r - 1) as nat);
        lemma_unvisited_none(n);
        let (vis, o) = roots_walk(parents, (r - 1) as nat);
        if parents[r - 1] is None {
            lemma_unvisited_bound(vis);
            lemma_dfs_node_shape(parents, r - 1, vis, (n + 1) as nat);
            assert(lists_below(ch, n)) by {
                assert forall|p: int, k: int| 0 <= p < ch.len() && 0 <= k < ch[p].len() implies #[trigger] ch[p][k] < n by {
                    lemma_children_below(parents, p, n);
                }
            }
            lemma_dfs_node(ch, r - 1, vis, (n + 1) as nat, n);
            let (vis2, o2) = dfs_node(ch, r - 1, vis, (n + 1) as nat);
            let w = o + o2;
            assert forall|b: int| 0 <= b < w.len() implies parents[w[b] as int] is None || parent_earlier(w, parents, b) by {
                if b < o.len() {
                    assert(w[b] == o[b]);
                    if parents[o[b] as int] is Some {
                        assert(parent_earlier(o, parents, b));
                        let a = choose|a: int| 0 <= a < b && parents[o[b] as int] == Some(#[trigger] o[a]);
                        assert(w[a] == o[a]);
                    }
                } else if b == o.len() {
                    assert(w[b] == o2[0]);
                } else {
                    assert(w[b] == o2[b - o.len()]);
                    assert(parent_earlier(o2, parents, b - o.len()));
                    let a = choose|a: int| 0 <= a < b - o.len() && parents[o2[b - o.len()] as int] == Some(#[trigger] o2[a]);
                    assert(w[a + o.len()] == o2[a]);
                }
            }
            assert forall|u: int, k: int|
                0 <= u < none.len() && vis2[u] && !none[u] && 0 <= k < ch[u].len() implies #[trigger] vis2[ch[u][k] as int] by {
                if vis[u] {
                    assert(vis[ch[u][k] as int]);
                }
            }
            assert forall|i: int| 0 <= i < r && parents[i] is None implies #[trigger] vis2[i] by {
                if i < r - 1 {
                    assert(vis[i]);
                }
            }
        }
    }
}

/// Parents first: in a skin whose parent links form no cycle (every position's chain of
/// parents ends at a root), every joint's parent comes before it in the joint order.
pub proof fn lemma_parents_first(parents: Seq<Option<usize>>)
    requires
        parents_below(parents),
        parents.len() <= usize::MAX,
        forall|i: int| 0 <= i < parents.len() ==> reaches_root(parents, i, parents.len()),
    ensures
        ({
            let o = joint_order(parents);
            forall|a: int, b: int|
                0 <= a < o.len() && 0 <= b < o.len() && parents[o[b] as int] == Some(o[a]) ==> a < b
        }),
{
    let n = parents.len();
    let ch = child_lists(parents);
    lemma_roots_walk_shape(parents, n);
    lemma_roots_walk(parents, n);
    lemma_joint_order_permutation(parents);
    let (vis, o) = roots_walk(parents, n);
    assert forall|i: int| 0 <= i < n implies #[trigger] vis[i] by {
        lemma_reached_marked(parents, i, n, vis);
    }
    lemma_unmarked(vis, n);
    assert(unmarked(vis, n).len() == 0) by {
        if unmarked(vis, n).len() > 0 {
            assert(!vis[unmarked(vis, n)[0] as int]);
        }
    }
    assert(joint_order(parents) =~= o);
    assert forall|a: int, b: int| 0 <= a < o.len() && 0 <= b < o.len() && parents[o[b] as int] == Some(o[a]) implies a < b by {
        assert(parent_earlier(o, parents, b));
        let a2 = choose|a2: int| 0 <= a2 < b && parents[o[b] as int] == Some(#[trigger] o[a2]);
        assert(o[a2] == o[a]);
        if a != a2 {
            if a < a2 {
                assert(o[a] != o[a2]);
            } else {
                assert(o[a2] != o[a]);
            }
        }
    }
}

/// After the walks from the roots, a position whose chain of parents reaches a root within
/// `fuel` steps is marked.
proof fn lemma_reached_marked(parents: Seq<Option<usize>>, i: int, fuel: nat, vis: Seq<bool>)
    requires
        parents_below(parents),
        parents.len() <= usize::MAX,
        0 <= i < parents.len(),
        reaches_root(parents, i, fuel),
        vis == roots_walk(parents, parents.len()).0,
        forall|j: int| 0 <= j < parents.len() && parents[j] is None ==> #[trigger] vis[j],
        closed_new(child_lists(parents), Seq::new(parents.len(), |j: int| false), vis),
        vis.len() == parents.len(),
    ensures
        vis[i],
    decreases fuel,
{
    let n = parents.len();
    match parents[i] {
        None => {},
        Some(p) => {
            lemma_reached_marked(parents, p as int, (fuel - 1) as nat, vis);
            let ch = child_lists(parents);
            lemma_children_below(parents, p as int, n);
            assert(ch[p as int].contains(i as usize));
            let k = choose|k: int| 0 <= k < ch[p as int].len() && ch[p as int][k] == i as usize;
            assert(vis[ch[p as int][k] as int]);
        },
    }
}

proof fn lemma_last_pos_below(js: Seq<usize>, p: usize, k: nat)
    ensures
        last_pos(js, p, k) matches Some(q) ==> q < k,
    decreases k,
{
    if k > 0 {
        lemma_last_pos_below(js, p, (k - 1) as nat);
    }
}

proof fn lemma_skin_parents_below(ch: Seq<Seq<usize>>, js: Seq<usize>)
    ensures
        parents_below(skin_parents(ch, js)),
{
    let par = skin_parents(ch, js);
    assert forall|i: int| 0 <= i < par.len() implies (#[trigger] par[i] matches Some(p) ==> p < par.len()) by {
        if let Some(h) = holder(ch, js[i], ch.len()) {
            lemma_last_pos_below(js, h, js.len());
        }
    }
}

proof fn lemma_joint_of(order: Seq<usize>, s: int, k: nat)
    requires
        k <= order.len(),
        order.len() <= usize::MAX,
    ensures
        k > 0 ==> joint_of(order, s, k) < k,
        (exists|t: int| 0 <= t < k && order[t] == s) ==> order[joint_of(order, s, k) as int] == s,
    decreases k,
{
    reveal_with_fuel(joint_of, 2);
    if k > 0 {
        lemma_joint_of(order, s, (k - 1) as nat);
        if order[k - 1] != s && (exists|t: int| 0 <= t < k && order[t] == s) {
            let t = choose|t: int| 0 <= t < k && order[t] == s;
            assert(t < k - 1);
        }
    }
}

/// Every joint lookup entry (node, skin, joint) of a document's skins names a skin, a joint of
/// that skin's skeleton, and a skin position holding that node which became that joint.
pub proof fn lemma_lookup_entries(ch: Seq<Seq<usize>>, skins: Seq<GltfSkin>, k: nat)
    requires
        k <= skins.len(),
        skins.len() <= usize::MAX,
    ensures
        forall|q: int|
            0 <= q < all_entries(ch, skins, k).len() ==> {
                let (node, s, j) = #[trigger] all_entries(ch, skins, k)[q];
                &&& s < k
                &&& j < skeletons_of(ch, skins)[s as int].1.len()
                &&& exists|t: int|
                    0 <= t < skins[s as int].joints@.len() && skins[s as int].joints@[t].0 == node && joint_order(
                        skin_parents(ch, joint_nodes(skins[s as int])),
                    )[j as int] == t
            },
    decreases k,
{
    if k > 0 {
        lemma_lookup_entries(ch, skins, (k - 1) as nat);
        let si = (k - 1) as int;
        let sk = skins[si];
        let js = joint_nodes(sk);
        let par = skin_parents(ch, js);
        let ord = joint_order(par);
        let prev = all_entries(ch, skins, (k - 1) as nat);
        let es = skin_entries(ch, sk, si as usize);
        let all = all_entries(ch, skins, k);
        assert(all == prev + es);
        lemma_skin_parents_below(ch, js);
        assert(js.len() == sk.joints@.len());
        assert(sk.joints@.len() <= usize::MAX) by {
            assert(sk.joints@.len() == sk.joints.len());
        }
        lemma_joint_order_permutation(par);
        assert forall|q: int| 0 <= q < all.len() implies {
            let (node, s, j) = #[trigger] all[q];
            &&& s < k
            &&& j < skeletons_of(ch, skins)[s as int].1.len()
            &&& exists|t: int|
                0 <= t < skins[s as int].joints@.len() && skins[s as int].joints@[t].0 == node && joint_order(
                    skin_parents(ch, joint_nodes(skins[s as int])),
                )[j as int] == t
        } by {
            if q < prev.len() {
                assert(all[q] == prev[q]);
            } else {
                let t = q - prev.len();
                assert(all[q] == es[t]);
                assert(ord.contains(t as usize));
                let w = choose|w: int| 0 <= w < ord.len() && ord[w] == t as usize;
                lemma_joint_of(ord, t, ord.len());
                let j = joint_of(ord, t, ord.len());
                assert(es[t] == (js[t], si as usize, j));
                assert(skeletons_of(ch, skins)[si] == skin_skeleton(ch, sk));
                assert(skin_skeleton(ch, sk).1 == skin_joints(ch, sk));
                assert(sk.joints@[t].0 == js[t]);
                assert(ord[j as int] == t);
            }
        }
    }
}

/// Parents first in a skeleton: in a skin of at most 256 joints whose parent links form no
/// cycle, every joint's parent joint comes before it.
pub proof fn lemma_skeleton_parents_first(ch: Seq<Seq<usize>>, sk: GltfSkin)
    requires
        sk.joints@.len() <= 256,
        forall|i: int|
            0 <= i < sk.joints@.len() ==> reaches_root(skin_parents(ch, joint_nodes(sk)), i, sk.joints@.len()),
    ensures
        forall|j: int|
            0 <= j < skin_skeleton(ch, sk).1.len() ==> ((#[trigger] skin_skeleton(ch, sk).1[j]).1 matches Some(p) ==> p < j),
{
    let js = joint_nodes(sk);
    let par = skin_parents(ch, js);
    let ord = joint_order(par);
    lemma_skin_parents_below(ch, js);
    lemma_joint_order_permutation(par);
    lemma_parents_first(par);
    if sk.joints@.len() > 0 {
        let joints = skin_joints(ch, sk);
        assert forall|j: int| 0 <= j < joints.len() implies ((#[trigger] joints[j]).1 matches Some(p) ==> p < j) by {
            if let Some(pp) = par[ord[j] as int] {
                assert(pp < par.len());
                assert(ord.contains(pp as int as usize));
                let w = choose|w: int| 0 <= w < ord.len() && ord[w] == pp;
                lemma_joint_of(ord, pp as int, ord.len());
                let a = joint_of(ord, pp as int, ord.len());
                assert(ord[a as int] == pp);
                assert(par[ord[j] as int] == Some(ord[a as int]));
                assert(a < j);
                assert(a % 256 == a);
            }
        }
    }
}

} // verus!
