use viewport_lib_io::tecplot::{
    datasets_from_path, find_xyz_indices, parse_element_type, parse_tecplot, parse_variable_names,
    triangulate_fe, triangulate_structured, ElementType, ZoneDataset,
};

fn num(t: &[char]) -> f32 {
    t.iter().collect::<String>().parse().unwrap()
}

fn column<'a>(ds: &'a ZoneDataset, name: &str) -> &'a Vec<Vec<char>> {
    &ds.point_data.iter().find(|(n, _)| n == name).expect("variable").1
}

#[test]
fn parses_variable_names_quoted_and_unquoted() {
    let names = parse_variable_names(r#""X", "Y", "Z", "Pressure (Pa)""#);
    assert_eq!(names, vec!["X", "Y", "Z", "Pressure (Pa)"]);

    let names2 = parse_variable_names("X Y Z P");
    assert_eq!(names2, vec!["X", "Y", "Z", "P"]);
}

#[test]
fn reads_fepoint_triangle_zone() {
    let content = r#"TITLE = "Triangle test"
VARIABLES = "X", "Y", "Z", "Pressure"
ZONE T="Zone 1", N=3, E=1, F=FEPOINT, ET=TRIANGLE
0.0 0.0 0.0 100.0
1.0 0.0 0.0 200.0
0.5 1.0 0.0 150.0
1 2 3
"#;
    let datasets = datasets_from_path(content).unwrap();
    assert_eq!(datasets.len(), 1);
    let ds = &datasets[0];
    assert_eq!(ds.positions.len(), 3);
    assert_eq!(ds.indices.len(), 3);
    assert_eq!(ds.indices, vec![0, 1, 2]);
    let p = column(ds, "Pressure");
    assert_eq!(p.len(), 3);
    assert!((num(&p[0]) - 100.0).abs() < 0.01);
    assert!((num(&p[1]) - 200.0).abs() < 0.01);
    assert!((num(&p[2]) - 150.0).abs() < 0.01);
}

#[test]
fn reads_block_structured_zone() {
    let content = r#"TITLE = "Structured test"
VARIABLES = "X", "Y", "Z", "Temperature"
ZONE T="Grid", I=3, J=2, K=1, F=BLOCK
0.0 1.0 2.0 0.0 1.0 2.0
0.0 0.0 0.0 1.0 1.0 1.0
0.0 0.0 0.0 0.0 0.0 0.0
300.0 310.0 320.0 305.0 315.0 325.0
"#;
    let datasets = datasets_from_path(content).unwrap();
    assert_eq!(datasets.len(), 1);
    let ds = &datasets[0];
    assert_eq!(ds.positions.len(), 6);
    // 3x2 grid => 2*1 = 2 quads => 4 triangles => 12 indices.
    assert_eq!(ds.indices.len(), 12);
    let t = column(ds, "Temperature");
    assert_eq!(t.len(), 6);
    assert!((num(&t[0]) - 300.0).abs() < 0.01);
}

#[test]
fn reads_time_series() {
    let content = r#"TITLE = "Time series"
VARIABLES = "X", "Y", "Z", "Vel"
ZONE T="Step 0", N=3, E=1, F=FEPOINT, ET=TRIANGLE, SOLUTIONTIME=0.0
0.0 0.0 0.0 1.0
1.0 0.0 0.0 2.0
0.5 1.0 0.0 1.5
1 2 3
ZONE T="Step 1", N=3, E=1, F=FEPOINT, ET=TRIANGLE, SOLUTIONTIME=0.5
0.0 0.0 0.0 3.0
1.0 0.0 0.0 4.0
0.5 1.0 0.0 3.5
1 2 3
"#;
    let file = parse_tecplot(content).unwrap();
    assert_eq!(file.zones.len(), 2);
    let times: Vec<String> = file
        .zones
        .iter()
        .map(|z| z.header.solution_time.clone().unwrap().iter().collect())
        .collect();
    assert_eq!(times, vec!["0.0", "0.5"]);
    let ds = datasets_from_path(content).unwrap();
    assert_eq!(ds.len(), 2);
    let vel = column(&ds[1], "Vel");
    assert!((num(&vel[0]) - 3.0).abs() < 0.01);
}

#[test]
fn reads_quad_fe_zone() {
    let content = r#"TITLE = "Quad test"
VARIABLES = "X", "Y", "Z"
ZONE T="Quad", N=4, E=1, F=FEPOINT, ET=QUADRILATERAL
0.0 0.0 0.0
1.0 0.0 0.0
1.0 1.0 0.0
0.0 1.0 0.0
1 2 3 4
"#;
    let datasets = datasets_from_path(content).unwrap();
    assert_eq!(datasets.len(), 1);
    assert_eq!(datasets[0].positions.len(), 4);
    // 1 quad => 2 triangles => 6 indices.
    assert_eq!(datasets[0].indices, vec![0, 1, 2, 0, 2, 3]);
}

#[test]
fn variables_continue_over_quoted_lines() {
    let content = "VARIABLES = \"X\"\n\"Y\", \"Z\"\n, \"T\"\nZONE N=1, E=0\n1 2 3 4\n";
    let file = parse_tecplot(content).unwrap();
    assert_eq!(file.variables, vec!["X", "Y", "Z", "T"]);
    assert_eq!(file.zones.len(), 1);
    assert_eq!(file.zones[0].data.len(), 4);
}

#[test]
fn zone_header_continues_on_keyword_lines() {
    let content = "VARIABLES = X Y\nZONE T=\"a\"\nI=2, J=2\nF=POINT\n0 0\n1 0\n0 1\n1 1\n";
    let file = parse_tecplot(content).unwrap();
    let h = &file.zones[0].header;
    assert_eq!((h.i_dim, h.j_dim, h.num_nodes), (2, 2, 4));
    let ds = datasets_from_path(content).unwrap();
    assert_eq!(ds[0].indices, vec![0, 1, 3, 0, 3, 2]);
    assert!(ds[0].positions[0].2.is_none());
}

#[test]
fn empty_file_is_an_error() {
    assert!(datasets_from_path("TITLE = \"nothing\"\n").is_err());
    assert!(datasets_from_path("").is_err());
}

#[test]
fn element_types_read_without_regard_to_case() {
    assert_eq!(parse_element_type("febrick"), Some(ElementType::Brick));
    assert_eq!(parse_element_type("Triangle"), Some(ElementType::Triangle));
    assert_eq!(parse_element_type("POLYGON"), None);
    assert_eq!(ElementType::Brick.nodes_per(), 8);
    assert_eq!(ElementType::Quadrilateral.nodes_per(), 4);
}

#[test]
fn coordinate_variables_are_found_by_name() {
    let vars: Vec<String> = ["P", "x-coordinate", "Y", "zc"].iter().map(|s| s.to_string()).collect();
    assert_eq!(find_xyz_indices(&vars).unwrap(), (1, 2, Some(3)));
    let two: Vec<String> = ["a", "b"].iter().map(|s| s.to_string()).collect();
    assert_eq!(find_xyz_indices(&two).unwrap(), (0, 1, None));
    let three: Vec<String> = ["a", "b", "c"].iter().map(|s| s.to_string()).collect();
    assert_eq!(find_xyz_indices(&three).unwrap(), (0, 1, Some(2)));
}

#[test]
fn brick_and_tetrahedron_faces() {
    let tet = triangulate_fe(&[0, 1, 2, 3], ElementType::Tetrahedron);
    assert_eq!(tet, vec![0, 2, 1, 0, 1, 3, 1, 2, 3, 0, 3, 2]);
    let brick = triangulate_fe(&[0, 1, 2, 3, 4, 5, 6, 7, 9], ElementType::Brick);
    assert_eq!(brick.len(), 36);
    assert!(brick.iter().all(|&i| i < 8));
}

#[test]
fn ordered_plane_needs_two_points_each_way() {
    assert!(triangulate_structured(1, 5, 1).is_empty());
    assert_eq!(triangulate_structured(2, 2, 7), vec![0, 1, 3, 0, 3, 2]);
    assert_eq!(triangulate_structured(3, 2, 1).len(), 12);
}

#[test]
fn ordered_plane_indices_name_plane_points() {
    let idx = triangulate_structured(4, 3, 7);
    assert_eq!(idx.len(), 3 * 2 * 6);
    assert!(idx.iter().all(|&v| v < 12));
    assert_eq!(idx.iter().copied().max(), Some(11));
}

#[test]
fn zone_whose_node_count_overflows_is_a_parse_error() {
    let text = "VARIABLES = X Y\nZONE I=4294967296, J=4294967296, K=4294967296\n1 2\n";
    match parse_tecplot(text) {
        Err(viewport_lib_io::error::IoError::Parse(m)) => assert_eq!(m, "Tecplot parse error: zone size out of range"),
        _ => panic!("expected a parse error"),
    }
    match datasets_from_path(text) {
        Err(viewport_lib_io::error::IoError::Parse(m)) => assert_eq!(m, "Tecplot parse error: zone size out of range"),
        _ => panic!("expected a parse error"),
    }
}
