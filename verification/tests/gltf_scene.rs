use viewport_lib_io::gltf_mesh::{mesh_plans, roots_end, MeshBinding, MeshInfo, SceneNode};
use viewport_lib_io::error::IoError;
use viewport_lib_io::gltf_scene::{
    convert_animations, scene_from_slice, scene_skeletons, GltfAnimation, GltfChannel, Interpolation, TrackKind,
    TrackPlan,
};

const DOC: &str = r#"{
  "asset": {"version": "2.0"},
  "nodes": [{"name": "root", "children": [1]}, {"name": "arm"}, {"name": "prop"}],
  "skins": [{"name": "rig", "joints": [1, 0]}],
  "animations": [
    {"name": "wave",
     "samplers": [{"input": 0, "output": 1, "interpolation": "LINEAR"},
                  {"input": 0, "output": 2, "interpolation": "STEP"}],
     "channels": [{"sampler": 0, "target": {"node": 1, "path": "rotation"}},
                  {"sampler": 1, "target": {"node": 0, "path": "translation"}},
                  {"sampler": 0, "target": {"node": 2, "path": "rotation"}},
                  {"sampler": 1, "target": {"node": 0, "path": "weights"}}]},
    {"samplers": [], "channels": []}
  ]
}"#;

#[test]
fn gltf_animations_split_per_skeleton_and_skip_non_joints() {
    let doc = scene_from_slice(DOC.as_bytes()).unwrap();
    assert_eq!(doc.children, vec![vec![1], vec![], vec![]]);
    assert_eq!(doc.animations.len(), 2);
    assert_eq!(doc.animations[0].channels[0], GltfChannel { node: 1, property: 2, interpolation: 1 });
    assert_eq!(doc.animations[0].channels[3].property, 4);
    let (skeletons, lookup) = scene_skeletons(&doc).unwrap();
    assert_eq!(skeletons.len(), 1);
    assert_eq!(skeletons[0].joints[0].name, "root");
    assert_eq!(lookup, vec![(1, 0, 1), (0, 0, 0)]);
    let counts = vec![vec![Some(3), Some(2), Some(3), Some(3)], vec![]];
    let clips = convert_animations(&doc.animations, &counts, &lookup);
    assert_eq!(clips.len(), 1);
    assert_eq!(clips[0].name, "wave");
    assert_eq!((clips[0].animation, clips[0].skeleton_index), (0, 0));
    assert_eq!(
        clips[0].tracks,
        vec![
            TrackPlan { channel: 0, joint: 1, kind: TrackKind::Rotation, interpolation: Interpolation::Linear },
            TrackPlan { channel: 1, joint: 0, kind: TrackKind::Translation, interpolation: Interpolation::Step },
        ]
    );
    for clip in &clips {
        assert!(clip.skeleton_index < skeletons.len());
        assert!(clip.tracks.iter().all(|t| t.joint < skeletons[clip.skeleton_index].joints.len()));
    }
    assert!(skeletons[0].joints.iter().enumerate().all(|(j, joint)| joint.parent.map_or(true, |p| (p as usize) < j)));
}

#[test]
fn gltf_channels_without_keyframes_are_skipped_and_names_default_to_the_index() {
    let anims = vec![
        GltfAnimation { name: Some("a".to_string()), channels: vec![GltfChannel { node: 5, property: 1, interpolation: 2 }] },
        GltfAnimation {
            name: None,
            channels: vec![
                GltfChannel { node: 5, property: 3, interpolation: 3 },
                GltfChannel { node: 7, property: 1, interpolation: 1 },
            ],
        },
    ];
    let lookup = vec![(5, 0, 2), (7, 1, 0)];
    let counts = vec![vec![Some(0)], vec![Some(4), None]];
    let clips = convert_animations(&anims, &counts, &lookup);
    assert_eq!(clips.len(), 1);
    assert_eq!(clips[0].name, "animation_1");
    assert_eq!(clips[0].skeleton_index, 0);
    assert_eq!(
        clips[0].tracks,
        vec![TrackPlan { channel: 0, joint: 2, kind: TrackKind::Scale, interpolation: Interpolation::CubicSpline }]
    );
    // With keyframes on both channels the second animation drives both skeletons, in order.
    let clips = convert_animations(&anims, &[vec![], vec![Some(1), Some(1)]], &lookup);
    assert_eq!(clips.iter().map(|c| c.skeleton_index).collect::<Vec<_>>(), vec![0, 1]);
}

#[test]
fn gltf_oversize_skins_and_bad_bytes_are_rejected() {
    match scene_from_slice(b"not a gltf") {
        Err(IoError::Parse(m)) => assert!(m.starts_with("glTF load failed: ")),
        _ => panic!("expected a parse error"),
    }
    let joints: Vec<String> = (0..257).map(|i| i.to_string()).collect();
    let nodes: Vec<&str> = (0..257).map(|_| "{}").collect();
    let doc = format!(
        r#"{{"asset":{{"version":"2.0"}},"nodes":[{}],"skins":[{{"name":"big","joints":[{}]}}]}}"#,
        nodes.join(","),
        joints.join(",")
    );
    let doc = scene_from_slice(doc.as_bytes()).unwrap();
    match scene_skeletons(&doc) {
        Err(IoError::Parse(m)) => assert_eq!(m, "skin 'big' has 257 joints, exceeds MAX_JOINTS = 256"),
        _ => panic!("expected the joint limit error"),
    }
}

#[test]
fn gltf_child_index_past_the_nodes_is_rejected() {
    let doc = r#"{"asset":{"version":"2.0"},"nodes":[{"children":[3]}]}"#;
    match scene_from_slice(doc.as_bytes()) {
        Err(IoError::Parse(m)) => assert_eq!(m, "glTF load failed: node index out of range"),
        _ => panic!("expected a parse error"),
    }
    let doc = r#"{"asset":{"version":"2.0"},"nodes":[{}],"skins":[{"joints":[0, 1]}]}"#;
    match scene_from_slice(doc.as_bytes()) {
        Err(IoError::Parse(m)) => assert_eq!(m, "glTF load failed: node index out of range"),
        _ => panic!("expected a parse error"),
    }
}

#[test]
fn gltf_glb_header_shorter_than_itself_is_rejected() {
    match scene_from_slice(b"glTF\x02\0\0\0\x04\0\0\0") {
        Err(IoError::Parse(m)) => assert!(m.starts_with("glTF load failed: ")),
        _ => panic!("expected a parse error"),
    }
}

#[test]
fn gltf_unknown_channel_path_reads_as_code_zero_and_is_skipped() {
    let doc = r#"{
      "asset": {"version": "2.0"},
      "nodes": [{"name": "root"}],
      "skins": [{"joints": [0]}],
      "animations": [{"name": "odd",
        "samplers": [{"input": 0, "output": 1}],
        "channels": [{"sampler": 0, "target": {"node": 0, "path": "foo"}},
                     {"sampler": 0, "target": {"node": 0, "path": "scale"}}]}]
    }"#;
    let doc = scene_from_slice(doc.as_bytes()).unwrap();
    assert_eq!(doc.animations[0].channels[0], GltfChannel { node: 0, property: 0, interpolation: 1 });
    let (_, lookup) = scene_skeletons(&doc).unwrap();
    let clips = convert_animations(&doc.animations, &[vec![Some(2), Some(2)]], &lookup);
    assert_eq!(
        clips[0].tracks,
        vec![TrackPlan { channel: 1, joint: 0, kind: TrackKind::Scale, interpolation: Interpolation::Linear }]
    );
}

/// Pack a glTF JSON and a binary buffer into a self-contained GLB.
fn make_glb(json: &[u8], bin: &[u8]) -> Vec<u8> {
    let pad4 = |len: usize| (4 - (len & 3)) & 3;
    let json_pad = pad4(json.len());
    let bin_pad = pad4(bin.len());
    let json_len = json.len() + json_pad;
    let bin_len = bin.len() + bin_pad;
    let total = 12 + 8 + json_len + 8 + bin_len;
    let mut out = Vec::with_capacity(total);
    out.extend_from_slice(&0x46546C67u32.to_le_bytes());
    out.extend_from_slice(&2u32.to_le_bytes());
    out.extend_from_slice(&(total as u32).to_le_bytes());
    out.extend_from_slice(&(json_len as u32).to_le_bytes());
    out.extend_from_slice(&0x4E4F534Au32.to_le_bytes());
    out.extend_from_slice(json);
    out.extend(std::iter::repeat(b' ').take(json_pad));
    out.extend_from_slice(&(bin_len as u32).to_le_bytes());
    out.extend_from_slice(&0x004E4942u32.to_le_bytes());
    out.extend_from_slice(bin);
    out.extend(std::iter::repeat(0u8).take(bin_pad));
    out
}

#[test]
fn skin_exceeding_max_joints_is_rejected() {
    let n_joints = 256 + 1;
    let mut bin = Vec::new();
    for v in [0.0f32, 0.0, 0.0, 1.0, 0.0, 0.0, 0.0, 1.0, 0.0] {
        bin.extend_from_slice(&v.to_le_bytes());
    }
    for v in [0u32, 1, 2] {
        bin.extend_from_slice(&v.to_le_bytes());
    }
    for _ in 0..3 {
        bin.extend_from_slice(&[0u8, 0, 0, 0]);
    }
    for _ in 0..3 {
        for v in [1.0f32, 0.0, 0.0, 0.0] {
            bin.extend_from_slice(&v.to_le_bytes());
        }
    }
    let identity = [1.0f32, 0.0, 0.0, 0.0, 0.0, 1.0, 0.0, 0.0, 0.0, 0.0, 1.0, 0.0, 0.0, 0.0, 0.0, 1.0];
    for _ in 0..n_joints {
        for v in identity {
            bin.extend_from_slice(&v.to_le_bytes());
        }
    }
    let (positions_len, indices_len, joints_len, weights_len) = (36, 12, 12, 48);
    let ib_len = n_joints * 64;
    let buffer_len = positions_len + indices_len + joints_len + weights_len + ib_len;
    assert_eq!(bin.len(), buffer_len);
    let positions_offset = 0;
    let indices_offset = positions_offset + positions_len;
    let joints_offset = indices_offset + indices_len;
    let weights_offset = joints_offset + joints_len;
    let ib_offset = weights_offset + weights_len;
    let joint_list = (0..n_joints).map(|j| (j + 1).to_string()).collect::<Vec<_>>().join(",");
    let mut nodes_json = String::from(r#"{ "mesh": 0, "skin": 0 }"#);
    for _ in 0..n_joints {
        nodes_json.push_str(",{}");
    }
    let json = format!(
        r#"{{
  "asset": {{ "version": "2.0" }},
  "scene": 0,
  "scenes": [{{ "nodes": [0] }}],
  "nodes": [{nodes_json}],
  "meshes": [{{
    "primitives": [{{
      "attributes": {{ "POSITION": 0, "JOINTS_0": 2, "WEIGHTS_0": 3 }},
      "indices": 1
    }}]
  }}],
  "skins": [{{
    "joints": [{joint_list}],
    "inverseBindMatrices": 4
  }}],
  "buffers": [{{ "byteLength": {buffer_len} }}],
  "bufferViews": [
    {{ "buffer": 0, "byteOffset": {positions_offset}, "byteLength": {positions_len} }},
    {{ "buffer": 0, "byteOffset": {indices_offset},   "byteLength": {indices_len}, "target": 34963 }},
    {{ "buffer": 0, "byteOffset": {joints_offset},    "byteLength": {joints_len} }},
    {{ "buffer": 0, "byteOffset": {weights_offset},   "byteLength": {weights_len} }},
    {{ "buffer": 0, "byteOffset": {ib_offset},        "byteLength": {ib_len} }}
  ],
  "accessors": [
    {{ "bufferView": 0, "componentType": 5126, "count": 3, "type": "VEC3", "min": [0,0,0], "max": [1,1,0] }},
    {{ "bufferView": 1, "componentType": 5125, "count": 3, "type": "SCALAR" }},
    {{ "bufferView": 2, "componentType": 5121, "count": 3, "type": "VEC4" }},
    {{ "bufferView": 3, "componentType": 5126, "count": 3, "type": "VEC4" }},
    {{ "bufferView": 4, "componentType": 5126, "count": {n_joints}, "type": "MAT4" }}
  ]
}}"#
    );
    let glb = make_glb(json.as_bytes(), &bin);
    let err = match scene_from_slice(&glb).and_then(|doc| scene_skeletons(&doc)) {
        Ok(_) => panic!("should reject oversize skin"),
        Err(e) => e,
    };
    match err {
        IoError::Parse(msg) => assert!(
            msg.contains("MAX_JOINTS") && msg.contains(&format!("{n_joints}")),
            "expected MAX_JOINTS error citing the joint count, got: {msg}",
        ),
        other => panic!("expected IoError::Parse, got {other:?}"),
    }
}

#[test]
fn gltf_mesh_instances_follow_the_node_tree() {
    let nodes = vec![
        SceneNode { children: vec![1], mesh: Some(0), skin: None },
        SceneNode { children: vec![2], mesh: None, skin: None },
        SceneNode { children: vec![], mesh: Some(1), skin: None },
        SceneNode { children: vec![], mesh: Some(1), skin: Some(0) },
    ];
    let meshes = vec![
        MeshInfo { name: Some("body".to_string()), usable: vec![true, false, true] },
        MeshInfo { name: None, usable: vec![true] },
    ];
    let plans = mesh_plans(&nodes, &meshes, &[(1, 0, 4)], &[0, 3]);
    let summary: Vec<(usize, usize, usize, String, Option<usize>, MeshBinding, Vec<usize>)> = plans
        .iter()
        .map(|p| (p.node, p.mesh, p.primitive, p.name.clone(), p.parent_index, p.binding, p.path.clone()))
        .collect();
    assert_eq!(
        summary,
        vec![
            (0, 0, 0, "body.0".to_string(), None, MeshBinding::Free, vec![0]),
            (0, 0, 2, "body.2".to_string(), Some(0), MeshBinding::Free, vec![0]),
            (2, 1, 0, "mesh_1".to_string(), Some(0), MeshBinding::Rigid(0, 4), vec![0, 1, 2]),
            (3, 1, 0, "mesh_1".to_string(), None, MeshBinding::Skinned(0), vec![3]),
        ]
    );
}

#[test]
fn gltf_walk_ends_only_without_cycles() {
    let tree = vec![
        SceneNode { children: vec![1, 2], mesh: None, skin: None },
        SceneNode { children: vec![2], mesh: None, skin: None },
        SceneNode { children: vec![], mesh: None, skin: None },
    ];
    assert!(roots_end(&tree, &[0, 1]));
    let cycle = vec![
        SceneNode { children: vec![1], mesh: None, skin: None },
        SceneNode { children: vec![0], mesh: None, skin: None },
    ];
    assert!(!roots_end(&cycle, &[0]));
    assert!(!roots_end(&tree, &[3]));
}

#[test]
fn gltf_joint_map_keeps_the_last_entry_of_a_node() {
    let map = viewport_lib_io::gltf_scene::joint_map(&[(5, 0, 2), (7, 1, 0), (5, 1, 3)]);
    assert_eq!(map.len(), 2);
    assert_eq!(map.get(&5), Some(&(1, 3)));
    assert_eq!(map.get(&7), Some(&(1, 0)));
    assert_eq!(map.get(&6), None);
}
