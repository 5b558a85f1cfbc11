use bucket_search::PointBin3D;

fn rows(data: &[[i64; 3]]) -> Vec<Vec<i64>> {
    data.iter().map(|r| r.to_vec()).collect()
}

#[test]
fn test_pointbin_full_workflow() {
    println!("--- Running PointBin3D Integration Test ---");

    // 1. Setup Test Data (Original Indices: 0, 1, 2, 3, 4)
    let original_points = rows(&[
        [5, 5, 5],       // Index 0: Center of bin (0,0,0)
        [30, 30, 30],    // Index 1: Far from (50,50,50)
        [60, 50, 50],    // Index 2: Close to (50,50,50) - dist=10
        [100, 100, 100], // Index 3: Far away, in a different large bin
        [0, 0, 0],       // Index 4: In bin (0,0,0)
    ]);

    let bin_widths = vec![50, 50, 50];

    // 2. Initialize the structure
    let mut point_bin = PointBin3D::new(&original_points, &bin_widths).unwrap();
    println!("Total points: {}", point_bin.original_points().len());
    println!("Bin shape: {:?}", point_bin.bin_shape());

    // Verify origin
    assert_eq!(point_bin.origin().x, 0);
    assert_eq!(point_bin.origin().y, 0);
    assert_eq!(point_bin.origin().z, 0);

    // 3. Search 1: Remove points near the center of bin (1,1,1)
    let query_point_1 = vec![50, 50, 50];
    let radius_1 = 15;

    point_bin.radius_search(&query_point_1, radius_1).unwrap();
    let results_1 = point_bin.found_indices();

    println!("\n--- Search 1 ---");
    println!("Query: {:?}, Radius: {}", query_point_1, radius_1);
    println!("Found Original Indices: {:?}", results_1);

    assert_eq!(results_1.len(), 1, "Expected 1 point found");
    assert_eq!(results_1[0], 2, "Expected to find point index 2");
    assert_eq!(point_bin.found_count(), 1, "Expected found_count to be 1");

    // 4. Search 2: Attempt to find point 2 again (should fail) and find point 0
    let query_point_2 = vec![5, 5, 5];
    let radius_2 = 6;

    point_bin.radius_search(&query_point_2, radius_2).unwrap();
    let results_2 = point_bin.found_indices();

    println!("\n--- Search 2 ---");
    println!("Query: {:?}, Radius: {}", query_point_2, radius_2);
    println!("Found Original Indices: {:?}", results_2);

    // Results should include both search 1 and search 2
    assert_eq!(results_2.len(), 2, "Expected 2 points found total");
    let mut sorted_results = results_2.clone();
    sorted_results.sort();
    assert_eq!(sorted_results[0], 0, "Expected to find point index 0");
    assert_eq!(sorted_results[1], 2, "Expected to find point index 2");
    assert_eq!(point_bin.found_count(), 2, "Expected found_count to be 2");

    // 5. Full Reset and Re-test (Point 2 should be back)
    point_bin.reset();

    println!("\n--- Reset and Re-Search ---");
    println!("Structure reset. Re-running Search 1 (should find point 2 again).");

    point_bin.radius_search(&query_point_1, radius_1).unwrap();
    let results_3 = point_bin.found_indices();

    assert_eq!(results_3.len(), 1, "Reset failed - expected 1 point");
    assert_eq!(results_3[0], 2, "Reset failed - expected point index 2");
    println!("Reset successful. Found Original Indices: {:?}", results_3);

    println!("\n*** ALL TESTS PASSED ***");
}

#[test]
fn test_empty_search() {
    let points = rows(&[[0, 0, 0], [100, 100, 100]]);
    let bin_widths = vec![50, 50, 50];

    let mut point_bin = PointBin3D::new(&points, &bin_widths).unwrap();

    // Search in an area with no points
    let query = vec![50, 50, 50];
    point_bin.radius_search(&query, 1).unwrap();

    let results = point_bin.found_indices();
    assert_eq!(results.len(), 0, "Expected no points found");
}

#[test]
fn test_multiple_points_in_radius() {
    let points = rows(&[
        [0, 0, 0],
        [5, 0, 0],
        [0, 5, 0],
        [0, 0, 5],
        [100, 100, 100],
    ]);
    let bin_widths = vec![20, 20, 20];

    let mut point_bin = PointBin3D::new(&points, &bin_widths).unwrap();

    // Search near origin - should find first 4 points
    let query = vec![0, 0, 0];
    point_bin.radius_search(&query, 10).unwrap();

    let results = point_bin.found_indices();
    assert_eq!(results.len(), 4, "Expected 4 points found");

    let mut sorted_results = results.clone();
    sorted_results.sort();
    assert_eq!(sorted_results, vec![0, 1, 2, 3]);
}

#[test]
fn test_cumulative_searches() {
    let points = rows(&[
        [0, 0, 0],  // 0
        [10, 0, 0], // 1
        [20, 0, 0], // 2
        [30, 0, 0], // 3
    ]);
    let bin_widths = vec![15, 15, 15];

    let mut point_bin = PointBin3D::new(&points, &bin_widths).unwrap();

    // First search
    let query1 = vec![0, 0, 0];
    point_bin.radius_search(&query1, 5).unwrap();
    assert_eq!(point_bin.found_count(), 1);

    // Second search (cumulative)
    let query2 = vec![20, 0, 0];
    point_bin.radius_search(&query2, 5).unwrap();
    assert_eq!(point_bin.found_count(), 2);

    let results = point_bin.found_indices();
    let mut sorted_results = results.clone();
    sorted_results.sort();
    assert_eq!(sorted_results, vec![0, 2]);
}
