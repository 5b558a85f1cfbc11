use bucket_search::max_along_axis0;
use bucket_search::min_along_axis0;

#[test]
fn test_min_along_axis0() {
    let arr = vec![vec![10, 50, 30], vec![40, 20, 60], vec![0, 80, 10]];
    let result = min_along_axis0(&arr);
    let expected = vec![0, 20, 10];
    assert_eq!(result, expected);
}

#[test]
fn test_max_along_axis0() {
    let arr = vec![vec![10, 50, 30], vec![40, 20, 60], vec![0, 80, 10]];
    let result = max_along_axis0(&arr);
    let expected = vec![40, 80, 60];
    assert_eq!(result, expected);
}
