use viewport_lib_io::lightmap::{buffers_well_formed, texel_count};

#[test]
fn lightmap_texel_count_is_width_times_height() {
    assert_eq!(texel_count(4, 3), 12);
    assert_eq!(texel_count(0, 7), 0);
}

#[test]
fn lightmap_buffers_hold_one_texel_per_position() {
    assert!(buffers_well_formed(4, 3, 12, None));
    assert!(buffers_well_formed(4, 3, 12, Some(12)));
    assert!(!buffers_well_formed(4, 3, 11, None));
    assert!(!buffers_well_formed(4, 3, 12, Some(13)));
    assert!(!buffers_well_formed(4, 3, 13, Some(12)));
}
