use viewport_lib_io::ensight::{self, expected_counts, plan_variable, resolve_wildcard};
use viewport_lib_io::error::IoError;
use viewport_lib_io::text::parse_selector;
use viewport_lib_io::ensight_geo::{
    datasets_from_path, read_geometry_ascii, read_n_floats, read_variable_file, Geometry, VariableValues,
};

fn text(t: &[char]) -> String {
    t.iter().collect()
}

fn number(t: &[char]) -> f32 {
    text(t).parse().unwrap()
}

const ASCII_CASE: &str = "\
FORMAT
type: ensight gold
GEOMETRY
model: test.geo
VARIABLE
scalar per node: 1 pressure test.prs****
TIME
time set: 1
number of steps: 2
time values: 0.0 1.0
";

const ASCII_GEO: &str = "\
EnSight Geometry File
Description line 2
node id off
element id off
part
     1
triangle-part
coordinates
     3
 0.00000e+00
 1.00000e+00
 5.00000e-01
 0.00000e+00
 0.00000e+00
 1.00000e+00
 0.00000e+00
 0.00000e+00
 0.00000e+00
tria3
     1
     1     2     3
";

#[test]
fn reads_ascii_case_with_triangle_part() {
    let case = ensight::parse_case_file(ASCII_CASE).unwrap();
    assert_eq!(case.geometry_file, "test.geo");

    let parts = match datasets_from_path(ASCII_GEO.as_bytes()).unwrap() {
        Geometry::Ascii(parts) => parts,
        Geometry::Binary(_) => panic!("expected an ASCII geometry"),
    };
    assert_eq!(parts.len(), 1);
    let part = &parts[0];
    assert_eq!(part.name, "triangle-part");
    assert_eq!(part.positions.len(), 3);
    assert_eq!(part.indices, vec![0, 1, 2]);
    let p1 = &part.positions[1];
    assert_eq!((number(&p1.0), number(&p1.1), number(&p1.2)), (1.0, 0.0, 0.0));
    let p2 = &part.positions[2];
    assert_eq!((number(&p2.0), number(&p2.1), number(&p2.2)), (0.5, 1.0, 0.0));

    let plan = plan_variable(&case.variables[0], 0);
    assert_eq!(plan.file, "test.prs0000");
    assert!(plan.per_node);
    assert!(!plan.vector);
    assert_eq!(plan.key, "pressure");
    let expected = expected_counts(plan.per_node, &[part.positions.len()]);
    assert_eq!(expected, vec![3]);

    let prs = "Pressure\npart\n     1\ncoordinates\n     3\n 100.0\n 200.0\n 150.0\n";
    let values = match read_variable_file(prs.as_bytes(), &expected, plan.vector).unwrap() {
        VariableValues::Ascii(v) => v,
        VariableValues::Binary(_) => panic!("expected ASCII values"),
    };
    assert_eq!(values.len(), 1);
    let p: Vec<f32> = values[0].iter().map(|t| number(t)).collect();
    assert_eq!(p.len(), 3);
    assert!((p[0] - 100.0).abs() < 0.01);
    assert!((p[1] - 200.0).abs() < 0.01);

    assert_eq!(ensight::read_series(&case), vec!["0", "1"]);
    let times: Vec<f32> = case.time_sets[0].values.iter().map(|t| number(t)).collect();
    assert_eq!(times, vec![0.0, 1.0]);
}

fn record(out: &mut Vec<u8>, text: &str) {
    let mut buf = [b' '; 80];
    let bytes = text.as_bytes();
    let len = bytes.len().min(80);
    buf[..len].copy_from_slice(&bytes[..len]);
    out.extend_from_slice(&buf);
}

fn block_geometry() -> Vec<u8> {
    let mut geo = Vec::new();
    record(&mut geo, "C Binary");
    record(&mut geo, "Structured block");
    record(&mut geo, "node id off");
    record(&mut geo, "element id off");
    record(&mut geo, "part");
    geo.extend_from_slice(&1i32.to_le_bytes());
    record(&mut geo, "curvilinear-surface");
    record(&mut geo, "block");
    for d in [2i32, 2, 1] {
        geo.extend_from_slice(&d.to_le_bytes());
    }
    for value in [0.0f32, 1.0, 0.0, 1.0, 0.0, 0.0, 1.0, 1.0, 0.0, 0.0, 0.0, 0.0] {
        geo.extend_from_slice(&value.to_le_bytes());
    }
    geo
}

#[test]
fn reads_c_binary_block_case() {
    let case_content = "\
FORMAT
type: ensight gold
GEOMETRY
model: block.geo
VARIABLE
scalar per node: pressure pressure.scl
";
    let case = ensight::parse_case_file(case_content).unwrap();
    assert_eq!(case.geometry_file, "block.geo");

    let parts = match datasets_from_path(&block_geometry()).unwrap() {
        Geometry::Binary(parts) => parts,
        Geometry::Ascii(_) => panic!("expected a binary geometry"),
    };
    assert_eq!(parts.len(), 1);
    let part = &parts[0];
    assert_eq!(part.name, "curvilinear-surface");
    assert_eq!(part.positions.len(), 4);
    assert_eq!(part.indices, vec![0, 1, 3, 0, 3, 2]);
    let p3 = part.positions[3];
    assert_eq!((f32::from_bits(p3.0), f32::from_bits(p3.1), f32::from_bits(p3.2)), (1.0, 1.0, 0.0));

    let mut scalar = Vec::new();
    record(&mut scalar, "pressure");
    record(&mut scalar, "part");
    scalar.extend_from_slice(&1i32.to_le_bytes());
    record(&mut scalar, "block");
    for value in [10.0f32, 20.0, 30.0, 40.0] {
        scalar.extend_from_slice(&value.to_le_bytes());
    }
    let plan = plan_variable(&case.variables[0], 0);
    assert_eq!(plan.file, "pressure.scl");
    let expected = expected_counts(plan.per_node, &[part.positions.len()]);
    let values = match read_variable_file(&scalar, &expected, plan.vector).unwrap() {
        VariableValues::Binary(v) => v,
        VariableValues::Ascii(_) => panic!("expected binary values"),
    };
    let p: Vec<f32> = values[0].iter().map(|b| f32::from_bits(*b)).collect();
    assert_eq!(p, vec![10.0, 20.0, 30.0, 40.0]);
}

#[test]
fn binary_part_with_bad_block_dimensions_fails_in_the_header() {
    let mut geo = Vec::new();
    record(&mut geo, "C Binary");
    record(&mut geo, "bad block");
    record(&mut geo, "part");
    geo.extend_from_slice(&1i32.to_le_bytes());
    record(&mut geo, "p");
    record(&mut geo, "block");
    for d in [2i32, 0, 1] {
        geo.extend_from_slice(&d.to_le_bytes());
    }
    assert!(datasets_from_path(&geo).is_err());
}

#[test]
fn binary_unstructured_part_with_elements() {
    let mut geo = Vec::new();
    record(&mut geo, "C Binary");
    record(&mut geo, "quad");
    record(&mut geo, "extents");
    for v in [0.0f32, 1.0, 0.0, 1.0, 0.0, 0.0] {
        geo.extend_from_slice(&v.to_le_bytes());
    }
    record(&mut geo, "part");
    geo.extend_from_slice(&1i32.to_le_bytes());
    record(&mut geo, "square");
    record(&mut geo, "coordinates");
    geo.extend_from_slice(&4i32.to_le_bytes());
    for v in [0.0f32, 1.0, 1.0, 0.0, 0.0, 0.0, 1.0, 1.0, 0.0, 0.0, 0.0, 0.0] {
        geo.extend_from_slice(&v.to_le_bytes());
    }
    record(&mut geo, "quad4");
    geo.extend_from_slice(&1i32.to_le_bytes());
    for id in [1i32, 2, 3, 0] {
        geo.extend_from_slice(&id.to_le_bytes());
    }
    let parts = match datasets_from_path(&geo).unwrap() {
        Geometry::Binary(parts) => parts,
        Geometry::Ascii(_) => panic!("expected a binary geometry"),
    };
    assert_eq!(parts.len(), 1);
    assert_eq!(parts[0].positions.len(), 4);
    // node 0 is clamped to index 0
    assert_eq!(parts[0].indices, vec![0, 1, 2, 0, 2, 0]);
}

#[test]
fn ascii_geometry_skips_unknown_parts_and_reads_blocks() {
    let geo = "\
d1
d2
extents
0 1
0 1
0 0
part
 1
empty-part
part
 2
grid
block
 2 2 1
0 1 0 1
0 0 1 1
0 0 0 0
";
    let parts = read_geometry_ascii(geo).unwrap();
    assert_eq!(parts.len(), 1);
    assert_eq!(parts[0].name, "grid");
    assert_eq!(parts[0].indices, vec![0, 1, 3, 0, 3, 2]);
    assert_eq!(text(&parts[0].positions[3].0), "1");
}

#[test]
fn ascii_geometry_errors() {
    // a coordinate count that is not a number
    assert!(read_geometry_ascii("a\nb\npart\n1\nx\ncoordinates\nmany\n").is_err());
    // values that run out
    assert!(read_geometry_ascii("a\nb\npart\n1\nx\ncoordinates\n3\n0 1\n").is_err());
    // a block line with two dimensions
    assert!(read_geometry_ascii("a\nb\npart\n1\nx\nblock\n2 2\n").is_err());
    // no part at all gives no parts, and an empty dataset error for the case
    assert_eq!(read_geometry_ascii("a\nb\n").unwrap().len(), 0);
    assert!(datasets_from_path(b"a\nb\n").is_err());
}

#[test]
fn numbers_are_taken_across_lines_up_to_the_count() {
    let lines: Vec<Vec<char>> = vec!["1 2".chars().collect(), "x 3 4".chars().collect(), "5".chars().collect()];
    let (v, q) = read_n_floats(&lines, 0, 3).unwrap();
    let v: Vec<String> = v.iter().map(|t| text(t)).collect();
    assert_eq!(v, vec!["1", "2", "3"]);
    assert_eq!(q, 2);
    assert!(read_n_floats(&lines, 2, 2).is_err());
}

#[test]
fn geometry_file_names_follow_the_existing_steps() {
    assert_eq!(resolve_wildcard("mesh.geo", false, false), "mesh.geo");
    assert_eq!(resolve_wildcard("mesh.geo**", true, true), "mesh.geo00");
    assert_eq!(resolve_wildcard("mesh.geo**", false, true), "mesh.geo01");
    assert_eq!(resolve_wildcard("m*sh.geo**", false, false), "m0sh.geo00");
}

#[test]
fn vector_variables_are_filed_as_magnitudes() {
    let case = ensight::parse_case_file(
        "GEOMETRY\nmodel: g.geo\nVARIABLE\nvector per element: velocity vel.vec\n",
    )
    .unwrap();
    let plan = plan_variable(&case.variables[0], 3);
    assert!(plan.vector);
    assert!(!plan.per_node);
    assert_eq!(plan.key, "velocity:magnitude");
    assert_eq!(expected_counts(plan.per_node, &[5, 7]), vec![0, 0]);
    let vec_file = "velocity\npart\n 1\ntria3\n 1\n1 2 3\n";
    let values = match read_variable_file(vec_file.as_bytes(), &[0], true).unwrap() {
        VariableValues::Ascii(v) => v,
        VariableValues::Binary(_) => panic!("expected ASCII values"),
    };
    assert_eq!(values[0].len(), 3);
    let prefix = "EnSight parse error: Invalid EnSight selector: ";
    assert_eq!(parse_selector("2", prefix).unwrap(), 2);
    match parse_selector("two", prefix) {
        Err(IoError::Parse(m)) => assert_eq!(m, "EnSight parse error: Invalid EnSight selector: two"),
        _ => panic!("expected a parse error"),
    }
}

#[test]
fn ascii_geometry_bytes_that_are_not_utf8_read_as_replacement_characters() {
    let mut geo = ASCII_GEO.replace("triangle-part", "tri@part").into_bytes();
    let at = geo.iter().position(|&b| b == b'@').unwrap();
    geo[at] = 0xff;
    let parts = match datasets_from_path(&geo).unwrap() {
        Geometry::Ascii(parts) => parts,
        Geometry::Binary(_) => panic!("expected an ASCII geometry"),
    };
    assert_eq!(parts.len(), 1);
    assert_eq!(parts[0].name, "tri\u{FFFD}part");
    assert_eq!(parts[0].indices, vec![0, 1, 2]);
}
