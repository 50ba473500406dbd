use std::collections::HashMap;

use viewport_lib_io::bvh::{Joint, Skeleton};
use viewport_lib_io::fbx::{
    axis_rotates, effective_axis, expand_sparse_shape_deltas, fan_triangulator, find_or_insert_rig,
    rig_joint_parents, topo_sort, AxisPolicy, CumulativeOrder,
    FbxLoadOptions,
};

fn skel(bones: &[(&str, Option<u8>)]) -> Skeleton {
    Skeleton {
        name: String::new(),
        joints: bones
            .iter()
            .map(|(n, p)| Joint {
                name: n.to_string(),
                parent: *p,
            })
            .collect(),
    }
}

/// A skinned mesh usually binds only a subset of the rig's bones. The rig
/// (superset, same root) must reuse the skin's skeleton.
#[test]
fn rig_reuses_skin_skeleton_when_skin_is_a_subset() {
    let mut skeletons = vec![skel(&[
        ("Armature", None),
        ("Hips", Some(0)),
        ("Spine", Some(1)),
    ])];
    let rig = skel(&[
        ("Armature", None),
        ("Hips", Some(0)),
        ("Spine", Some(1)),
        ("Finger", Some(2)),
        ("Twist", Some(1)),
    ]);
    let idx = find_or_insert_rig(&mut skeletons, rig);
    assert_eq!(idx, 0, "should reuse the skin skeleton");
    assert_eq!(skeletons.len(), 1, "no second skeleton appended");
}

/// The original fully-covered case (skin covers rig) still reuses.
#[test]
fn rig_reuses_when_skin_covers_rig() {
    let mut skeletons = vec![skel(&[
        ("Armature", None),
        ("Hips", Some(0)),
        ("Spine", Some(1)),
    ])];
    let rig = skel(&[("Armature", None), ("Hips", Some(0))]);
    assert_eq!(find_or_insert_rig(&mut skeletons, rig), 0);
    assert_eq!(skeletons.len(), 1);
}

/// The joint order must not depend on the order the bones are listed in, and every parent
/// must precede its children.
#[test]
fn topo_sort_is_deterministic_and_orders_parents_first() {
    let bones: Vec<(i64, Option<i64>)> = vec![
        (50, None),
        (10, Some(50)),
        (30, Some(10)),
        (20, Some(50)),
        (40, Some(30)),
    ];
    let first = topo_sort(&bones);
    for shift in 0..32 {
        let mut listed = bones.clone();
        listed.rotate_left(shift % bones.len());
        if shift % 2 == 1 {
            listed.reverse();
        }
        assert_eq!(topo_sort(&listed), first, "topo_sort order is not stable");
    }
    assert_eq!(first, vec![50, 10, 20, 30, 40]);

    let pos: HashMap<i64, usize> = first.iter().enumerate().map(|(i, &id)| (id, i)).collect();
    for &(id, parent) in &bones {
        if let Some(p) = parent {
            assert!(pos[&p] < pos[&id], "parent {p} ordered after child {id}");
        }
    }
}

/// A genuinely different armature (different root) is appended, not merged.
#[test]
fn unrelated_rig_is_appended() {
    let mut skeletons = vec![skel(&[("RigA", None), ("Bone", Some(0))])];
    let rig = skel(&[("RigB", None), ("Other", Some(0))]);
    assert_eq!(find_or_insert_rig(&mut skeletons, rig), 1);
    assert_eq!(skeletons.len(), 2);
}

/// Whether a chain matrix lands +Y on +Z, as the loader tests it.
fn lands_on_z(m: &glam::Mat4) -> bool {
    let y = m.transform_vector3(glam::Vec3::Y);
    y.z > 0.9 && y.y.abs() < 0.5
}

#[test]
fn veto_fires_when_the_chain_already_lands_y_on_plus_z() {
    let cumulative = glam::Mat4::from_rotation_x(std::f32::consts::FRAC_PI_2);
    let (apply, vetoed) = effective_axis(AxisPolicy::HeuristicVeto, lands_on_z(&cumulative));
    assert!(vetoed, "the veto should fire");
    assert!(!apply);
}

#[test]
fn veto_does_not_fire_when_the_chain_lands_y_on_minus_z() {
    let cumulative = glam::Mat4::from_rotation_x(-std::f32::consts::FRAC_PI_2);
    let (apply, vetoed) = effective_axis(AxisPolicy::HeuristicVeto, lands_on_z(&cumulative));
    assert!(!vetoed, "the veto must stay signed, not absolute");
    assert!(apply);
}

#[test]
fn veto_does_not_fire_on_ordinary_y_up_content() {
    let (apply, vetoed) = effective_axis(AxisPolicy::HeuristicVeto, lands_on_z(&glam::Mat4::IDENTITY));
    assert!(!vetoed);
    assert!(apply);
}

#[test]
fn veto_does_not_fire_on_a_chain_merely_tilted_towards_z() {
    let cumulative = glam::Mat4::from_rotation_x(std::f32::consts::FRAC_PI_4);
    let (apply, vetoed) = effective_axis(AxisPolicy::HeuristicVeto, lands_on_z(&cumulative));
    assert!(!vetoed, "a 45 degree tilt is under the threshold");
    assert!(apply);
}

#[test]
fn only_the_heuristic_policy_vetoes() {
    for policy in [
        AxisPolicy::HonourHeader,
        AxisPolicy::ForceYUpRaw,
        AxisPolicy::PassThrough,
    ] {
        let (apply, vetoed) = effective_axis(policy, true);
        assert!(!vetoed, "{policy:?} must not veto");
        assert!(apply, "{policy:?} applies the file axis as given");
    }
}

#[test]
fn default_options_keep_the_historical_behaviour() {
    let o = FbxLoadOptions::default();
    assert_eq!(o.axis_policy, AxisPolicy::HeuristicVeto);
    assert_eq!(o.cumulative_order, CumulativeOrder::PreAxis);
}

#[test]
fn file_axis_follows_policy_and_header() {
    assert!(axis_rotates(AxisPolicy::HeuristicVeto, 2));
    assert!(!axis_rotates(AxisPolicy::HeuristicVeto, 0));
    assert!(axis_rotates(AxisPolicy::ForceYUpRaw, 1));
    assert!(axis_rotates(AxisPolicy::HonourHeader, 1));
    assert!(!axis_rotates(AxisPolicy::HonourHeader, 2));
    assert!(!axis_rotates(AxisPolicy::PassThrough, 1));
}

#[test]
fn topo_sort_keeps_every_bone_once_with_a_cycle() {
    let bones: Vec<(i64, Option<i64>)> = vec![(1, Some(2)), (2, Some(1)), (3, Some(99))];
    let order = topo_sort(&bones);
    let mut sorted = order.clone();
    sorted.sort();
    assert_eq!(sorted, vec![1, 2, 3]);
    assert_eq!(order, vec![2, 1, 3]);
}

#[test]
fn polygons_are_fanned_and_quads_split_by_geometry() {
    let mut out = Vec::new();
    fan_triangulator(&[7, 8], true, &mut out);
    assert!(out.is_empty());
    fan_triangulator(&[1, 2, 3], true, &mut out);
    assert_eq!(out, vec![(1, 2, 3)]);
    out.clear();
    fan_triangulator(&[0, 1, 2, 3], true, &mut out);
    assert_eq!(out, vec![(0, 1, 2), (2, 3, 0)]);
    out.clear();
    fan_triangulator(&[0, 1, 2, 3], false, &mut out);
    assert_eq!(out, vec![(0, 1, 3), (3, 1, 2)]);
    out.clear();
    fan_triangulator(&[5, 6, 7, 8, 9], false, &mut out);
    assert_eq!(out, vec![(5, 6, 7), (5, 7, 8), (5, 8, 9)]);
}

#[test]
fn sparse_shape_deltas_scatter_into_dense_control_points() {
    // Two of four control points move; index order need not be ascending.
    let indexes = [2, 0];
    let verts = [1.0, 2.0, 3.0, -4.0, 0.0, 0.5];
    let mut dense = vec![[0.0f64; 3]; 4];
    assert!(expand_sparse_shape_deltas(&indexes, &verts, &mut dense));
    assert_eq!(dense[2], [1.0, 2.0, 3.0]);
    assert_eq!(dense[0], [-4.0, 0.0, 0.5]);
    // Unreferenced control points stay at rest.
    assert_eq!(dense[1], [0.0, 0.0, 0.0]);
    assert_eq!(dense[3], [0.0, 0.0, 0.0]);
}

#[test]
fn sparse_shape_deltas_reject_truncated_and_skip_out_of_range() {
    let mut dense = vec![[0.0f64; 3]; 2];
    // 9 (>= len 2) is skipped; index 1 still applies, so it wrote something.
    assert!(expand_sparse_shape_deltas(&[9, 1], &[7.0; 6], &mut dense));
    assert_eq!(dense[1], [7.0, 7.0, 7.0]);
    assert_eq!(dense[0], [0.0, 0.0, 0.0]);

    // Truncated Vertices (needs 6 floats for 2 indices, has 3) writes nothing.
    let mut dense2 = vec![[0.0f64; 3]; 2];
    assert!(!expand_sparse_shape_deltas(&[0, 1], &[1.0, 2.0, 3.0], &mut dense2));
    assert_eq!(dense2, vec![[0.0f64; 3]; 2]);

    // Empty is a no-op.
    let none: [f64; 0] = [];
    assert!(!expand_sparse_shape_deltas(&[], &none, &mut dense2));
    // A negative index is skipped too.
    assert!(!expand_sparse_shape_deltas(&[-1], &[1.0, 1.0, 1.0], &mut dense2));
}

#[test]
fn rig_joints_name_earlier_parents() {
    let bones: Vec<(i64, Option<i64>)> = vec![(10, None), (5, Some(10)), (7, Some(5)), (3, Some(99))];
    let (order, parents) = rig_joint_parents(&bones);
    assert_eq!(order, vec![3, 10, 5, 7]);
    assert_eq!(parents, vec![None, None, Some(1), Some(2)]);
    for (j, p) in parents.iter().enumerate() {
        if let Some(p) = p {
            assert!((*p as usize) < j);
        }
    }
}
