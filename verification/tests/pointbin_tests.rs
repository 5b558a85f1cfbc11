use bucket_search::PointBin3D;

fn rows(data: &[[i64; 3]]) -> Vec<Vec<i64>> {
    data.iter().map(|r| r.to_vec()).collect()
}

#[test]
fn test_pointbin_creation() {
    let points = rows(&[[5, 5, 5], [30, 30, 30], [60, 50, 50]]);
    let bin_widths = vec![50, 50, 50];

    let point_bin = PointBin3D::new(&points, &bin_widths).unwrap();

    assert_eq!(point_bin.original_points().len(), 3);
    assert_eq!(point_bin.origin().x, 5);
}

#[test]
fn test_radius_search_basic() {
    let points = rows(&[[5, 5, 5], [30, 30, 30], [60, 50, 50]]);
    let bin_widths = vec![50, 50, 50];

    let mut point_bin = PointBin3D::new(&points, &bin_widths).unwrap();

    // Search near point 2
    let query = vec![50, 50, 50];
    point_bin.radius_search(&query, 15).unwrap();

    let results = point_bin.found_indices();
    assert_eq!(results.len(), 1);
    assert_eq!(results[0], 2);
}

#[test]
fn test_reset() {
    let points = rows(&[[5, 5, 5], [60, 50, 50]]);
    let bin_widths = vec![50, 50, 50];

    let mut point_bin = PointBin3D::new(&points, &bin_widths).unwrap();

    // First search
    let query = vec![50, 50, 50];
    point_bin.radius_search(&query, 15).unwrap();
    assert_eq!(point_bin.found_count(), 1);

    // Reset
    point_bin.reset();
    assert_eq!(point_bin.found_count(), 0);

    // Search again - should find the same point
    point_bin.radius_search(&query, 15).unwrap();
    assert_eq!(point_bin.found_count(), 1);
}
