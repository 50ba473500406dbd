use viewport_lib_io::gltf_skin::{check_joint_counts, convert_skeletons, skin_joint_order, GltfSkin};

fn skin(name: Option<&str>, joints: &[(usize, &str)]) -> GltfSkin {
    GltfSkin {
        name: name.map(|n| n.to_string()),
        joints: joints.iter().map(|(n, s)| (*n, Some(s.to_string()))).collect(),
    }
}

#[test]
fn skin_joints_are_ordered_parents_first() {
    // node 0 has children 1 and 2, node 1 has child 3
    let children = vec![vec![1, 2], vec![3], vec![], vec![]];
    let skins = vec![skin(Some("rig"), &[(3, "hand"), (1, "arm"), (0, "root"), (2, "leg")])];
    let (skeletons, lookup) = convert_skeletons(&children, &skins);
    assert_eq!(skeletons.len(), 1);
    let sk = &skeletons[0];
    assert_eq!(sk.name, "rig");
    let names: Vec<&str> = sk.joints.iter().map(|j| j.name.as_str()).collect();
    assert_eq!(names, vec!["root", "arm", "hand", "leg"]);
    let parents: Vec<Option<u8>> = sk.joints.iter().map(|j| j.parent).collect();
    assert_eq!(parents, vec![None, Some(0), Some(1), Some(0)]);
    assert_eq!(lookup, vec![(3, 0, 2), (1, 0, 1), (0, 0, 0), (2, 0, 3)]);
}

#[test]
fn parent_outside_the_skin_makes_a_root() {
    // node 0 is the parent of node 1, but only node 1 and node 2 are joints
    let children = vec![vec![1], vec![2], vec![]];
    let skins = vec![skin(None, &[(2, "b"), (1, "a")])];
    let (skeletons, _) = convert_skeletons(&children, &skins);
    let sk = &skeletons[0];
    assert_eq!(sk.name, "");
    let names: Vec<&str> = sk.joints.iter().map(|j| j.name.as_str()).collect();
    assert_eq!(names, vec!["a", "b"]);
    assert_eq!(sk.joints[0].parent, None);
    assert_eq!(sk.joints[1].parent, Some(0));
}

#[test]
fn joints_on_a_parent_cycle_are_appended_in_order() {
    assert_eq!(skin_joint_order(&[Some(1), Some(0), None]), vec![2, 0, 1]);
    assert_eq!(skin_joint_order(&[None, Some(0), Some(0), Some(1)]), vec![0, 1, 3, 2]);
    assert_eq!(skin_joint_order(&[]), Vec::<usize>::new());
}

#[test]
fn empty_skins_give_empty_skeletons() {
    let children = vec![vec![]];
    let skins = vec![GltfSkin { name: Some("unused".to_string()), joints: vec![] }, skin(Some("one"), &[(0, "j")])];
    let (skeletons, lookup) = convert_skeletons(&children, &skins);
    assert_eq!(skeletons.len(), 2);
    assert_eq!(skeletons[0].name, "");
    assert!(skeletons[0].joints.is_empty());
    assert_eq!(skeletons[1].joints.len(), 1);
    assert_eq!(lookup, vec![(0, 1, 0)]);
}

#[test]
fn oversize_skins_are_rejected_with_their_count() {
    let joints: Vec<(usize, &str)> = (0..5).map(|i| (i, "j")).collect();
    let skins = vec![skin(Some("small"), &joints[..2]), skin(None, &joints)];
    assert!(check_joint_counts(&skins, 5).is_ok());
    match check_joint_counts(&skins, 4) {
        Err(viewport_lib_io::error::IoError::Parse(m)) => {
            assert_eq!(m, "skin '<unnamed>' has 5 joints, exceeds MAX_JOINTS = 4")
        }
        _ => panic!("expected a parse error"),
    }
}
