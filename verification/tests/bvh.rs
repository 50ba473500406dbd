use viewport_lib_io::bvh::{scene_from_bytes, scene_from_str, AnimationChannel, Channel};
use viewport_lib_io::error::IoError;

// A minimal two-joint rig: a root with a translation+rotation channel set
// and one child that only rotates. Two motion frames.
const SAMPLE: &str = "\
HIERARCHY
ROOT Hips
{
    OFFSET 0.0 0.0 0.0
    CHANNELS 6 Xposition Yposition Zposition Zrotation Xrotation Yrotation
    JOINT Spine
    {
        OFFSET 0.0 10.0 0.0
        CHANNELS 3 Zrotation Xrotation Yrotation
        End Site
        {
            OFFSET 0.0 5.0 0.0
        }
    }
}
MOTION
Frames: 2
Frame Time: 0.033333
0.0 0.0 0.0 0.0 0.0 0.0 0.0 0.0 0.0
1.0 2.0 3.0 0.0 90.0 0.0 0.0 0.0 0.0
";

#[test]
fn parses_hierarchy_and_names() {
    let scene = scene_from_str(SAMPLE).expect("parse");
    assert_eq!(scene.skeletons.len(), 1);
    let skel = &scene.skeletons[0];
    // End Site is dropped, so two joints remain.
    assert_eq!(skel.joints.len(), 2);
    assert_eq!(skel.joints[0].name, "Hips");
    assert_eq!(skel.joints[1].name, "Spine");
    assert_eq!(skel.joints[0].parent, None);
    assert_eq!(skel.joints[1].parent, Some(0));
}

#[test]
fn clip_duration_and_frame_count() {
    let scene = scene_from_str(SAMPLE).expect("parse");
    let clip = &scene.animations[0];
    // Two frames at 0.033333 => last sample time is one frame in.
    assert_eq!(clip.frame_count, 2);
    assert_eq!(clip.frame_time, "0.033333");
    let frame_time: f32 = clip.frame_time.parse().unwrap();
    let duration = (clip.frame_count - 1) as f32 * frame_time;
    assert!((duration - 0.033333).abs() < 1e-4);
    // Root: rotation + translation; child: rotation only => three tracks.
    assert_eq!(clip.tracks.len(), 3);
}

#[test]
fn rejects_short_motion() {
    let truncated = SAMPLE.replace("1.0 2.0 3.0 0.0 90.0 0.0 0.0 0.0 0.0\n", "");
    assert!(scene_from_str(&truncated).is_err());
}

#[test]
fn root_translation_samples_follow_the_channel_order() {
    let scene = scene_from_str(SAMPLE).expect("parse");
    let root = &scene.motion[0];
    assert_eq!(
        root.channels,
        vec![
            Channel::PosX,
            Channel::PosY,
            Channel::PosZ,
            Channel::RotZ,
            Channel::RotX,
            Channel::RotY
        ]
    );
    assert_eq!(root.first_channel, 0);
    assert_eq!(scene.motion[1].first_channel, 6);
    assert_eq!(scene.samples_per_frame, 9);
    let row1 = &scene.samples[9..18];
    assert_eq!(row1[0], "1.0");
    assert_eq!(row1[1], "2.0");
    assert_eq!(row1[2], "3.0");
    assert_eq!(row1[4], "90.0");
}

#[test]
fn tracks_list_rotation_before_translation_per_joint() {
    let scene = scene_from_str(SAMPLE).expect("parse");
    let clip = &scene.animations[0];
    let kinds: Vec<(usize, bool)> = clip
        .tracks
        .iter()
        .map(|t| (t.joint, t.channel == AnimationChannel::Rotation))
        .collect();
    assert_eq!(kinds, vec![(0, true), (0, false), (1, true)]);
    assert_eq!(clip.frame_count, 2);
    assert_eq!(clip.frame_time, "0.033333");
    assert_eq!(clip.skeleton_index, 0);
}

#[test]
fn scene_from_bytes_matches_scene_from_str() {
    let a = scene_from_bytes(SAMPLE.as_bytes()).expect("parse");
    let b = scene_from_str(SAMPLE).expect("parse");
    assert_eq!(a.samples, b.samples);
    assert_eq!(a.skeletons[0].joints.len(), b.skeletons[0].joints.len());
}

#[test]
fn rejects_invalid_utf8() {
    assert!(scene_from_bytes(&[0xff, 0xfe, 0x00]).is_err());
}

#[test]
fn rejects_a_non_numeric_sample() {
    let broken = SAMPLE.replace("1.0 2.0 3.0", "1.0 two 3.0");
    assert!(scene_from_str(&broken).is_err());
}

fn message(r: Result<viewport_lib_io::bvh::BvhScene, IoError>) -> String {
    match r {
        Err(IoError::Parse(m)) => m,
        _ => panic!("expected a parse error"),
    }
}

#[test]
fn bvh_errors_name_what_went_wrong() {
    let truncated = SAMPLE.replace("1.0 2.0 3.0 0.0 90.0 0.0 0.0 0.0 0.0\n", "");
    assert_eq!(message(scene_from_str(&truncated)), "bvh: motion has 9 samples, expected 18 (2 frames x 9 channels)");
    let broken = SAMPLE.replace("1.0 2.0 3.0", "1.0 two 3.0");
    assert_eq!(message(scene_from_str(&broken)), "bvh: non-numeric motion sample `two`");
    let channel = SAMPLE.replacen("Zrotation", "Wrotation", 1);
    assert_eq!(message(scene_from_str(&channel)), "bvh: unknown channel `Wrotation`");
    let keyword = SAMPLE.replace("MOTION", "MOTIONS");
    assert_eq!(message(scene_from_str(&keyword)), "bvh: expected `MOTION`, found `MOTIONS`");
    assert!(message(scene_from_bytes(&[0xff, 0xfe, 0x00])).starts_with("bvh: not valid UTF-8: "));
}

#[test]
fn bvh_joint_limit_names_the_joint_count() {
    let mut text = String::from("HIERARCHY\nROOT r\n{\nOFFSET 0 0 0\n");
    for i in 0..256 {
        text.push_str(&format!("JOINT j{i}\n{{\nOFFSET 0 0 0\n}}\n"));
    }
    text.push_str("}\nMOTION\nFrames: 0\nFrame Time: 0.1\n");
    assert_eq!(message(scene_from_str(&text)), "bvh: 257 joints exceeds the 256-joint limit");
}

#[test]
fn bvh_bytes_and_text_fail_alike() {
    let cases = [
        SAMPLE.replace("End Site", "End Sight"),
        SAMPLE.replacen("OFFSET 0.0 10.0 0.0", "OFFSET 0.0 ten 0.0", 1),
        SAMPLE.replacen("JOINT Spine", "BONE Spine", 1),
        SAMPLE.replace("Frames: 2", "Frames: two"),
        SAMPLE.replace("HIERARCHY", "HIER"),
        "HIERARCHY ROOT".to_string(),
    ];
    let expected = [
        "bvh: malformed End Site",
        "bvh: expected three numbers after OFFSET",
        "bvh: unexpected token `BONE` in joint body",
        "bvh: bad Frames count",
        "bvh: expected `HIERARCHY`, found `HIER`",
        "bvh: unexpected end of file",
    ];
    for (text, want) in cases.iter().zip(expected) {
        assert_eq!(message(scene_from_str(text)), want);
        assert_eq!(message(scene_from_bytes(text.as_bytes())), want);
    }
}
