use viewport_lib_io::netcdf::{
    data_variables, datasets_from_path, detect_spatial_axes, detect_time_coord, read_series, resolve_spatial_coords,
    surface_indices, AxisInfo, AxisSource, NcKind, NcVar, SpatialAxes,
};

fn var(name: &str, dims: &[(&str, u64)], coordinate: bool) -> NcVar {
    NcVar {
        name: name.to_string(),
        dims: dims.iter().map(|(n, s)| (n.to_string(), *s)).collect(),
        is_coordinate: coordinate,
        kind: NcKind::Float,
        axis: None,
        units: None,
    }
}

fn axis(name: &str, len: usize) -> Option<AxisInfo> {
    Some(AxisInfo { name: name.to_string(), len })
}

#[test]
fn reads_2d_surface_from_cdf1() {
    let vars = vec![
        var("x", &[("x", 3)], true),
        var("y", &[("y", 2)], true),
        var("temperature", &[("y", 2), ("x", 3)], false),
    ];
    assert_eq!(detect_time_coord(&vars), None);
    assert_eq!(detect_spatial_axes(&vars), (Some(0), Some(1), None));
    assert_eq!(data_variables(&vars), vec![2]);
    let axes = SpatialAxes { x: axis("x", 3), y: axis("y", 2), z: None };
    let plans = datasets_from_path(&vars, &axes, &None).unwrap();
    assert_eq!(plans.len(), 1);
    let p = &plans[0];
    assert_eq!(p.var, 2);
    assert!(!p.time_sliced);
    assert_eq!((p.x, p.y), (AxisSource::Coordinate(0), AxisSource::Coordinate(1)));
    let tris = p.surface.as_ref().unwrap();
    // 3x2 grid -> 2 quads -> 4 triangles -> 12 indices
    assert_eq!(tris.len(), 12);
    assert_eq!(tris[..6].to_vec(), vec![0, 1, 4, 0, 4, 3]);
}

#[test]
fn reads_series_metadata() {
    let mut time = var("time", &[("time", 3)], true);
    time.units = Some("seconds since 2000-01-01".to_string());
    let vars = vec![time, var("x", &[("x", 2)], true), var("velocity", &[("time", 3), ("x", 2)], false)];
    assert_eq!(detect_time_coord(&vars), Some(0));
    assert_eq!(read_series(Some(3)), vec![Some("0".to_string()), Some("1".to_string()), Some("2".to_string())]);
    assert_eq!(read_series(None), vec![None]);
    // one spatial dimension left: nothing to show
    let axes = SpatialAxes { x: axis("x", 2), y: None, z: None };
    assert!(datasets_from_path(&vars, &axes, &Some("time".to_string())).is_err());
}

#[test]
fn time_and_axes_come_from_attributes_and_names() {
    let mut t = var("when", &[("when", 4)], true);
    t.axis = Some("T".to_string());
    let mut lat = var("LAT", &[("LAT", 5)], true);
    lat.axis = None;
    let mut depth = var("d", &[("d", 2)], true);
    depth.axis = Some("z".to_string());
    let bounds = var("lat_bnds", &[("LAT", 5), ("nv", 2)], false);
    let mut label = var("label", &[("n", 2)], false);
    label.kind = NcKind::Char;
    let vars = vec![t, lat, depth, bounds, label];
    assert_eq!(detect_time_coord(&vars), Some(0));
    assert_eq!(detect_spatial_axes(&vars), (None, Some(1), Some(2)));
    assert!(data_variables(&vars).is_empty());
}

#[test]
fn unmatched_dimensions_get_index_values() {
    let axes = SpatialAxes { x: None, y: axis("lat", 4), z: None };
    let dims = vec![("level".to_string(), 3u64), ("lat".to_string(), 4), ("col".to_string(), 5)];
    assert_eq!(
        resolve_spatial_coords(&dims, &axes),
        (AxisSource::Indices(5), AxisSource::Coordinate(1), AxisSource::Indices(3))
    );
    let dims = vec![("a".to_string(), 2u64), ("b".to_string(), 7)];
    let none = SpatialAxes { x: None, y: None, z: None };
    assert_eq!(
        resolve_spatial_coords(&dims, &none),
        (AxisSource::Indices(7), AxisSource::Indices(2), AxisSource::Indices(7))
    );
}

#[test]
fn degenerate_grids_have_no_triangles() {
    assert!(surface_indices(1, 5).is_empty());
    assert_eq!(surface_indices(2, 2), vec![0, 1, 3, 0, 3, 2]);
    let vars = vec![var("v", &[("a", 0), ("b", 3)], false)];
    let none = SpatialAxes { x: None, y: None, z: None };
    assert!(datasets_from_path(&vars, &none, &None).is_err());
}

#[test]
fn surface_indices_name_grid_points() {
    let idx = surface_indices(5, 3);
    assert_eq!(idx.len(), 4 * 2 * 6);
    assert!(idx.iter().all(|&v| v < 15));
    assert_eq!(idx.iter().copied().max(), Some(14));
}
