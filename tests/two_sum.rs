use algorithms::two_sum::two_sum;

#[test]
fn test_two_sum() {
    let xs = [2, 7, 11, 15];
    let result = two_sum(&xs, 9);
    assert!(result == Some((1, 0)) || result == Some((0, 1)));
}

#[test]
fn two_sum_none_and_repeated() {
    assert_eq!(two_sum(&[1, 2, 4], 10), None);
    assert_eq!(two_sum(&[5], 10), None);
    let r = two_sum(&[3, 5, 3], 6);
    assert!(r == Some((0, 2)) || r == Some((2, 0)));
    assert_eq!(two_sum(&[i32::MAX, i32::MIN], -1), Some((0, 1)));
}
