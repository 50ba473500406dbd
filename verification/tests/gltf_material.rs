use viewport_lib_io::gltf_material::{material_name, texture_choice, TextureChoice};

#[test]
fn gltf_texture_sources_prefer_decoded_images() {
    assert!(matches!(texture_choice(1, 2, Some("a.png")), TextureChoice::Decoded(1)));
    match texture_choice(2, 2, Some("textures/a.png")) {
        TextureChoice::File(f) => assert_eq!(f, "textures/a.png"),
        _ => panic!("expected a file"),
    }
    assert!(matches!(texture_choice(2, 2, Some("data:image/png;base64,AAAA")), TextureChoice::Missing));
    assert!(matches!(texture_choice(0, 0, None), TextureChoice::Missing));
}

#[test]
fn gltf_material_names_default_to_the_index() {
    assert_eq!(material_name(&Some("skin".to_string()), Some(3)), "skin");
    assert_eq!(material_name(&None, Some(3)), "material_3");
    assert_eq!(material_name(&None, None), "material_0");
}
