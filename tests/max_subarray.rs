use algorithms::max_subarray::{find_max_subarray_iterative, find_max_subarray_recursive};

#[test]
fn test_find_max_subarray_recursive() {
    let xs = [
        13, -3, -25, 20, -3, -16, -23, 18, 20, -7, 12, -5, -22, 15, -4, 7,
    ];
    let (left, right, sum) = find_max_subarray_recursive(&xs);
    assert_eq!(left, 7);
    assert_eq!(right, 10);
    assert_eq!(sum, 43);
}

#[test]
fn test_find_max_subarray_iterative() {
    let xs = [
        13, -3, -25, 20, -3, -16, -23, 18, 20, -7, 12, -5, -22, 15, -4, 7,
    ];
    let (left, right, sum) = find_max_subarray_iterative(&xs);
    assert_eq!(left, 7);
    assert_eq!(right, 10);
    assert_eq!(sum, 43);
}

#[test]
fn max_subarray_positive_middle_then_negative() {
    let xs = [5, -1];
    assert_eq!(find_max_subarray_recursive(&xs), (0, 0, 5));
    assert_eq!(find_max_subarray_iterative(&xs), (0, 0, 5));
}

#[test]
fn max_subarray_negative_start() {
    let xs = [-5, 3];
    assert_eq!(find_max_subarray_recursive(&xs), (1, 1, 3));
    assert_eq!(find_max_subarray_iterative(&xs), (1, 1, 3));
}

#[test]
fn max_subarray_all_negative() {
    let xs = [-4, -2, -7];
    assert_eq!(find_max_subarray_recursive(&xs).2, -2);
    assert_eq!(find_max_subarray_iterative(&xs), (1, 1, -2));
}
