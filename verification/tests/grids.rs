use viewport_lib_io::cgns::{
    self, element_node_count, quad_grid_indices, read_selector, read_zone, triangulate_mixed, triangulate_typed,
    CgnsBase, CgnsZone, ElementSection,
};
use viewport_lib_io::ensight;
use viewport_lib_io::exodus::{self, classify_by_node_count, classify_element_type, read_element_block, ElementBlock};
use viewport_lib_io::gltf::{to_rgba8, PixelFormat};
use viewport_lib_io::mesh::CellShape;

fn zone(zone_type: &str, dims: Vec<i32>, sections: Vec<ElementSection>) -> CgnsZone {
    CgnsZone {
        zone_type: zone_type.to_string(),
        dims,
        vertex_count: 4,
        sections,
    }
}

#[test]
fn reads_unstructured_triangle_zone() {
    let z = zone(
        "Unstructured",
        vec![3, 1, 0],
        vec![ElementSection { elem_type: cgns::TRI_3, connectivity: vec![1, 2, 3] }],
    );
    let bases = vec![CgnsBase { cell_dim: 2, zones: vec![z] }];
    let meshes = cgns::datasets_from_path(&bases).unwrap();
    assert_eq!(meshes.len(), 1);
    assert_eq!(meshes[0].indices, vec![0, 1, 2]);
    assert!(meshes[0].volume_dims.is_none());
}

#[test]
fn cgns_node_counts_and_unknown_types() {
    assert_eq!(element_node_count(cgns::HEXA_8), 8);
    assert_eq!(element_node_count(cgns::PYRA_5), 5);
    assert_eq!(element_node_count(cgns::MIXED), 0);
    let mut out = Vec::new();
    triangulate_typed(99, &[1, 2, 3], &mut out);
    assert!(out.is_empty());
}

#[test]
fn cgns_quads_drop_trailing_numbers_and_clamp_to_zero() {
    let mut out = Vec::new();
    triangulate_typed(cgns::QUAD_4, &[1, 2, 3, 4, 0, 7], &mut out);
    assert_eq!(out, vec![0, 1, 2, 0, 2, 3]);
    let mut out = Vec::new();
    triangulate_typed(cgns::TRI_3, &[0, -5, 2], &mut out);
    assert_eq!(out, vec![0, 0, 1]);
}

#[test]
fn cgns_mixed_section_stops_at_unknown_code() {
    let mut out = Vec::new();
    triangulate_mixed(&[cgns::TRI_3, 1, 2, 3, cgns::QUAD_4, 1, 2, 3, 4, 42, 1, 2], &mut out);
    assert_eq!(out, vec![0, 1, 2, 0, 1, 2, 0, 2, 3]);
    let mut out = Vec::new();
    triangulate_mixed(&[cgns::QUAD_4, 1, 2], &mut out);
    assert!(out.is_empty());
}

#[test]
fn cgns_quad_grid_and_box_surface() {
    assert_eq!(quad_grid_indices(2, 2), vec![0, 1, 2, 1, 3, 2]);
    let box_faces = cgns::structured_surface_indices(2, 2, 2);
    // Six faces of one cell, two triangles each.
    assert_eq!(box_faces.len(), 36);
    assert!(box_faces.iter().all(|&i| i < 8));
    assert!(cgns::structured_surface_indices(1, 1, 5).is_empty());
    assert_eq!(cgns::structured_surface_indices(3, 1, 2), quad_grid_indices(3, 2));
}

#[test]
fn cgns_structured_block_keeps_volume_dims() {
    let z = zone("structured", vec![2, 2, 2, 1, 1, 1], vec![]);
    let m = read_zone(&z, 3).unwrap();
    assert_eq!(m.volume_dims, Some((2, 2, 2)));
    assert_eq!(m.indices.len(), 36);
    let flat = zone("Structured", vec![2, 2, 5], vec![]);
    let m = read_zone(&flat, 2).unwrap();
    assert_eq!(m.volume_dims, None);
    assert_eq!(m.indices, vec![0, 1, 2, 1, 3, 2]);
}

#[test]
fn cgns_without_meshes_is_an_error() {
    let z = zone("Unstructured", vec![], vec![]);
    let bases = vec![CgnsBase { cell_dim: 3, zones: vec![z] }];
    assert!(cgns::datasets_from_path(&bases).is_err());
}

#[test]
fn cgns_series_selectors() {
    let (src, sels) = cgns::read_series(&[vec![None], vec![None, Some(3)]]);
    assert_eq!(src, Some((1, 1)));
    assert_eq!(sels, vec!["1/0", "1/1", "1/2"]);
    let (src, sels) = cgns::read_series(&[]);
    assert_eq!(src, None);
    assert_eq!(sels, vec!["0"]);
}

#[test]
fn reads_single_triangle_block() {
    let blocks = vec![ElementBlock {
        connectivity: vec![1, 2, 3],
        nodes_per_elem: 3,
        elem_type: "TRI3".to_string(),
    }];
    let meshes = exodus::datasets_from_path(&blocks).unwrap();
    assert_eq!(meshes.len(), 1);
    assert_eq!(meshes[0].0, 0);
    assert_eq!(meshes[0].1.node_ids, vec![1, 2, 3]);
    assert_eq!(meshes[0].1.indices, vec![0, 1, 2]);
}

#[test]
fn reads_hex_block_with_two_timesteps() {
    let blocks = vec![ElementBlock {
        connectivity: vec![1, 2, 3, 4, 5, 6, 7, 8],
        nodes_per_elem: 8,
        elem_type: "HEX8".to_string(),
    }];
    let meshes = exodus::datasets_from_path(&blocks).unwrap();
    assert_eq!(meshes[0].1.indices.len(), 36);
    assert_eq!(exodus::read_series(2), vec!["0", "1"]);
    assert_eq!(exodus::read_series(0), vec!["0"]);
}

#[test]
fn exodus_block_renumbers_used_nodes() {
    let m = read_element_block(&[40, 10, 30, 10, 30, 20], 3, Some(CellShape::Tri)).unwrap();
    assert_eq!(m.node_ids, vec![10, 20, 30, 40]);
    assert_eq!(m.indices, vec![3, 0, 2, 0, 2, 1]);
    assert!(read_element_block(&[1, 2, 3], 0, None).is_err());
    assert!(read_element_block(&[1, 2, 3], 3, Some(CellShape::Hex)).is_err());
}

#[test]
fn exodus_classification() {
    assert_eq!(classify_element_type("shell4"), Some(CellShape::Quad));
    assert_eq!(classify_element_type("tetra10"), Some(CellShape::Tet));
    assert_eq!(classify_element_type("BEAM"), None);
    assert_eq!(classify_by_node_count(4), Some(CellShape::Tet));
    assert_eq!(classify_by_node_count(27), Some(CellShape::Hex));
    assert_eq!(classify_by_node_count(2), None);
}

#[test]
fn parses_case_file_sections() {
    let case_content = "\
FORMAT
type: ensight gold
GEOMETRY
model: mesh.geo
VARIABLE
scalar per node: temperature temp.scl
scalar per element: density dens.scl
vector per node: velocity vel.vec
";
    let case = ensight::parse_case_file(case_content).unwrap();
    assert_eq!(case.geometry_file, "mesh.geo");
    assert_eq!(case.variables.len(), 3);
    assert_eq!(case.variables[0].name, "temperature");
    assert_eq!(case.variables[0].var_type, ensight::VarType::ScalarPerNode);
    assert_eq!(case.variables[1].name, "density");
    assert_eq!(case.variables[1].var_type, ensight::VarType::ScalarPerElement);
    assert_eq!(case.variables[2].name, "velocity");
    assert_eq!(case.variables[2].var_type, ensight::VarType::VectorPerNode);
}

#[test]
fn ensight_time_sets_and_wildcards() {
    let case_content = "\
FORMAT
type: ensight gold
GEOMETRY
model: 1 test.geo
VARIABLE
scalar per node: 1 pressure test.prs****
TIME
time set: 1
number of steps: 2
time values: 0.0 1.0
";
    let case = ensight::parse_case_file(case_content).unwrap();
    assert_eq!(case.geometry_file, "test.geo");
    assert_eq!(case.geometry_time_set, Some(1));
    assert_eq!(case.variables[0].name, "pressure");
    assert_eq!(case.variables[0].time_set, Some(1));
    assert_eq!(case.time_sets.len(), 1);
    assert_eq!(case.time_sets[0].values.len(), 2);
    assert_eq!(ensight::read_series(&case), vec!["0", "1"]);
    assert_eq!(ensight::resolve_wildcard_at_step("test.prs****", 0), "test.prs0000");
    assert_eq!(ensight::resolve_wildcard_at_step("a*b*", 7), "a*b*");
    assert_eq!(ensight::resolve_wildcard_at_step("s**.dat", 123), "s123.dat");
    assert_eq!(ensight::resolve_wildcard_at_step("plain.dat", 5), "plain.dat");
}

#[test]
fn ensight_case_without_model_is_an_error() {
    assert!(ensight::parse_case_file("FORMAT\ntype: ensight gold\n").is_err());
}

#[test]
fn ensight_element_types() {
    assert!(ensight::is_element_type("nfaced"));
    assert!(!ensight::is_element_type("tria"));
    assert_eq!(ensight::nodes_per_element("hexa20"), 20);
    assert_eq!(ensight::nodes_per_element("nsided"), 0);
    let mut out = Vec::new();
    ensight::triangulate_ensight("quad8", &[0, 1, 2, 3, 4, 5, 6, 7], &mut out);
    assert_eq!(out, vec![0, 1, 2, 0, 2, 3]);
}

#[test]
fn ensight_block_surface_for_a_flat_block() {
    assert_eq!(ensight::structured_surface_indices(2, 2, 1), vec![0, 1, 3, 0, 3, 2]);
    let cube = ensight::structured_surface_indices(2, 2, 2);
    assert_eq!(cube.len(), 36);
}

#[test]
fn ensight_binary_records() {
    let mut data = vec![b' '; 80];
    data[..8].copy_from_slice(b"C Binary");
    data.extend_from_slice(&(-2i32).to_le_bytes());
    assert!(ensight::is_c_binary(&data));
    assert!(!ensight::is_c_binary(b"EnSight Geometry File"));
    assert!(ensight::is_probably_binary(&[0xff; 100]));
    let (rec, pos) = ensight::read_record_string(&data, 0).unwrap();
    assert_eq!(rec.trim(), "C Binary");
    assert_eq!(pos, 80);
    assert_eq!(ensight::read_i32(&data, 80), Some((-2, 84)));
    assert_eq!(ensight::read_i32(&data, 82), None);
    assert_eq!(ensight::skip_record(&data, 10), None);
    let (v, q) = ensight::read_i32_array(&data, 80, 1).unwrap();
    assert_eq!((v, q), (vec![-2], 84));
}

#[test]
fn rgba_widening_of_integer_formats() {
    assert_eq!(to_rgba8(PixelFormat::R8, 2, 1, &[7, 9]), vec![7, 7, 7, 255, 9, 9, 9, 255]);
    assert_eq!(to_rgba8(PixelFormat::R8G8, 1, 1, &[1, 2, 3]), vec![1, 2, 0, 255]);
    assert_eq!(to_rgba8(PixelFormat::R8G8B8, 1, 1, &[1, 2, 3]), vec![1, 2, 3, 255]);
    assert_eq!(to_rgba8(PixelFormat::R8G8B8A8, 1, 1, &[1, 2, 3, 4]), vec![1, 2, 3, 4]);
    assert_eq!(to_rgba8(PixelFormat::R16, 2, 1, &[0x34, 0x12]), vec![0x12, 0x12, 0x12, 255, 0, 0, 0, 255]);
    assert_eq!(
        to_rgba8(PixelFormat::R16G16B16A16, 1, 1, &[0, 1, 0, 2, 0, 3, 0, 4]),
        vec![1, 2, 3, 4]
    );
}

#[test]
fn rgba_widening_of_whole_images_gives_four_bytes_per_pixel() {
    let formats = [
        (PixelFormat::R8, 1usize),
        (PixelFormat::R8G8, 2),
        (PixelFormat::R8G8B8, 3),
        (PixelFormat::R8G8B8A8, 4),
        (PixelFormat::R16, 2),
        (PixelFormat::R16G16, 4),
        (PixelFormat::R16G16B16, 6),
        (PixelFormat::R16G16B16A16, 8),
    ];
    for (format, bytes) in formats {
        let pixels: Vec<u8> = (0..(2 * 3 * bytes)).map(|b| b as u8).collect();
        assert_eq!(to_rgba8(format, 2, 3, &pixels).len(), 4 * 2 * 3, "{format:?}");
    }
}

#[test]
fn ensight_block_surface_counts_flat_axes_once() {
    let faces = |n: usize| if n == 1 { 1 } else { 2 };
    for &(ni, nj, nk) in &[(3usize, 4usize, 5usize), (1, 3, 4), (4, 1, 1), (2, 3, 1), (1, 1, 1)] {
        let expected = 6
            * (faces(nk) * (ni - 1) * (nj - 1) + faces(nj) * (ni - 1) * (nk - 1) + faces(ni) * (nj - 1) * (nk - 1));
        assert_eq!(ensight::structured_surface_indices(ni, nj, nk).len(), expected, "{ni}x{nj}x{nk}");
    }
}

#[test]
fn ensight_block_surface_indices_name_block_points() {
    for &(ni, nj, nk) in &[(3usize, 4usize, 5usize), (1, 3, 4), (4, 1, 1), (2, 3, 1), (0, 2, 2)] {
        let points = ni.max(1) * nj.max(1) * nk.max(1);
        let idx = ensight::structured_surface_indices(ni, nj, nk);
        assert!(idx.iter().all(|&v| (v as usize) < points), "{ni}x{nj}x{nk}");
    }
}

#[test]
fn exodus_block_indices_name_block_points() {
    let conn = [7, 3, 9, 3, 9, 11, 11, 2, 7, 2, 3, 9];
    let m = read_element_block(&conn, 4, Some(CellShape::Quad)).unwrap();
    assert_eq!(m.node_ids, vec![2, 3, 7, 9, 11]);
    assert_eq!(m.indices.len(), 18);
    assert!(m.indices.iter().all(|&v| (v as usize) < m.node_ids.len()));
}

#[test]
fn cgns_selectors_name_a_base_and_maybe_a_time() {
    assert_eq!(read_selector("2").unwrap(), (2, None));
    assert_eq!(read_selector("0/3").unwrap(), (0, Some(3)));
    assert_eq!(read_selector("1/x").unwrap(), (1, None));
    assert_eq!(read_selector("1/4/9").unwrap(), (1, Some(4)));
    match read_selector("a/1") {
        Err(viewport_lib_io::error::IoError::Parse(m)) => {
            assert_eq!(m, "CGNS parse error: Invalid CGNS selector: a/1")
        }
        _ => panic!("expected a parse error"),
    }
}

#[test]
fn ensight_block_surface_counts_a_flat_axis_once() {
    assert_eq!(ensight::structured_surface_indices(3, 4, 1).len(), 6 * 6);
    assert_eq!(ensight::structured_surface_indices(3, 4, 5).len(), 6 * (2 * 6 + 2 * 8 + 2 * 12));
}

#[test]
fn cgns_unread_numbers_may_be_anything() {
    let typed = ElementSection { elem_type: cgns::TRI_3, connectivity: vec![1, 2, 3, i32::MIN] };
    let mixed = ElementSection { elem_type: cgns::MIXED, connectivity: vec![cgns::TRI_3, 2, 3, 4, i32::MIN, 7] };
    assert!(cgns::sections_numbers_ok(&[typed, mixed]));
    let z = zone(
        "Unstructured",
        vec![4, 1, 0],
        vec![
            ElementSection { elem_type: cgns::TRI_3, connectivity: vec![1, 2, 3, i32::MIN] },
            ElementSection { elem_type: cgns::MIXED, connectivity: vec![cgns::TRI_3, 2, 3, 4, i32::MIN, 7] },
        ],
    );
    let mesh = read_zone(&z, 2).unwrap();
    assert_eq!(mesh.indices, vec![0, 1, 2, 1, 2, 3]);
    let used = ElementSection { elem_type: cgns::TRI_3, connectivity: vec![1, i32::MIN, 3] };
    assert!(!cgns::sections_numbers_ok(&[used]));
}
