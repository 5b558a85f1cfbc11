use bucket_search::BinError;
use bucket_search::PointBin3D;

fn rows(data: &[[i64; 3]]) -> Vec<Vec<i64>> {
    data.iter().map(|r| r.to_vec()).collect()
}

#[test]
fn test_new_rejects_bad_point_width() {
    let points = vec![vec![0, 0], vec![1, 1]];
    let bin_widths = vec![5, 5, 5];
    let res = PointBin3D::new(&points, &bin_widths);
    assert!(matches!(res, Err(BinError::InvalidDimension)));
}

#[test]
fn test_new_rejects_bad_widths_len() {
    let points = rows(&[[0, 0, 0]]);
    let bin_widths = vec![5, 5];
    let res = PointBin3D::new(&points, &bin_widths);
    assert!(matches!(res, Err(BinError::InvalidDimension)));
}

#[test]
fn test_search_rejects_bad_query_len() {
    let points = rows(&[[0, 0, 0], [9, 9, 9]]);
    let bin_widths = vec![5, 5, 5];
    let mut pb = PointBin3D::new(&points, &bin_widths).unwrap();
    let res = pb.radius_search(&vec![1, 2], 3);
    assert!(matches!(res, Err(BinError::InvalidDimension)));
    // the failed call changed nothing
    assert_eq!(pb.found_count(), 0);
}

#[test]
fn test_boundary_exactly_at_radius_matches() {
    // point 1 lies at distance exactly 5 from the query (3-4-5 triangle)
    let points = rows(&[[0, 0, 0], [3, 4, 0], [50, 50, 50]]);
    let bin_widths = vec![10, 10, 10];
    let mut pb = PointBin3D::new(&points, &bin_widths).unwrap();
    pb.radius_search(&vec![0, 0, 0], 5).unwrap();
    let mut found = pb.found_indices();
    found.sort();
    assert_eq!(found, vec![0, 1]);
}

#[test]
fn test_bin_shape_and_accessors() {
    let points = rows(&[[0, 0, 0], [10, 10, 10]]);
    let bin_widths = vec![5, 5, 5];
    let pb = PointBin3D::new(&points, &bin_widths).unwrap();
    assert_eq!(pb.bin_shape(), vec![3, 3, 3]);
    assert_eq!(pb.origin().x, 0);
    assert_eq!(pb.origin().y, 0);
    assert_eq!(pb.origin().z, 0);
    assert_eq!(pb.original_points().len(), 2);
    assert_eq!(pb.original_points()[1].x, 10);
}

#[test]
fn test_full_session_claims_each_index_once() {
    let points = rows(&[[0, 0, 0], [1, 0, 0], [0, 1, 0], [0, 0, 1]]);
    let bin_widths = vec![2, 2, 2];
    let mut pb = PointBin3D::new(&points, &bin_widths).unwrap();
    pb.radius_search(&vec![0, 0, 0], 10).unwrap();
    let mut found = pb.found_indices();
    assert_eq!(pb.found_count(), 4);
    found.sort();
    assert_eq!(found, vec![0, 1, 2, 3]);
    // a second identical search matches nothing: the points are claimed
    pb.radius_search(&vec![0, 0, 0], 10).unwrap();
    assert_eq!(pb.found_count(), 4);
}

#[test]
fn test_reset_twice_equals_once() {
    let points = rows(&[[0, 0, 0], [7, 0, 0]]);
    let bin_widths = vec![4, 4, 4];
    let mut pb = PointBin3D::new(&points, &bin_widths).unwrap();
    pb.radius_search(&vec![0, 0, 0], 2).unwrap();
    assert_eq!(pb.found_count(), 1);
    pb.reset();
    pb.reset();
    assert_eq!(pb.found_count(), 0);
    pb.radius_search(&vec![0, 0, 0], 2).unwrap();
    assert_eq!(pb.found_indices(), vec![0]);
}

#[test]
fn test_permuted_rows_claim_the_same_points() {
    let a = rows(&[[0, 0, 0], [60, 50, 50], [30, 30, 30]]);
    let b = rows(&[[30, 30, 30], [0, 0, 0], [60, 50, 50]]);
    let widths = vec![50, 50, 50];
    let mut pa = PointBin3D::new(&a, &widths).unwrap();
    let mut pb = PointBin3D::new(&b, &widths).unwrap();
    pa.radius_search(&vec![50, 50, 50], 15).unwrap();
    pb.radius_search(&vec![50, 50, 50], 15).unwrap();
    let fa: Vec<[i64; 3]> = pa
        .found_indices()
        .iter()
        .map(|&i| [a[i][0], a[i][1], a[i][2]])
        .collect();
    let fb: Vec<[i64; 3]> = pb
        .found_indices()
        .iter()
        .map(|&i| [b[i][0], b[i][1], b[i][2]])
        .collect();
    assert_eq!(fa, vec![[60, 50, 50]]);
    assert_eq!(fb, vec![[60, 50, 50]]);
}

#[test]
fn test_negative_coordinates() {
    let points = rows(&[[-10, -10, -10], [10, 10, 10]]);
    let bin_widths = vec![5, 5, 5];
    let mut pb = PointBin3D::new(&points, &bin_widths).unwrap();
    assert_eq!(pb.origin().x, -10);
    pb.radius_search(&vec![-10, -10, -10], 1).unwrap();
    assert_eq!(pb.found_indices(), vec![0]);
}
