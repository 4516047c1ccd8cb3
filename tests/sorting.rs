use algorithms::bubble_sort::bubble_sort;
use algorithms::bucket_sort::bucket_sort;
use algorithms::counting_sort::counting_sort;
use algorithms::heap_sort::heap_sort;
use algorithms::insert_sort::insert_sort;
use algorithms::merge_sort::merge_sort;
use algorithms::quick_sort::quick_sort;
use algorithms::radix_sort::radix_sort;
use algorithms::selection_sort::selection_sort;
use algorithms::shell_sort::shell_sort;

#[test]
fn bubble_sort_test_sort() {
    let mut xs = [4, 5, 1, 2, 4];
    bubble_sort(&mut xs);
    assert_eq!(xs, [1, 2, 4, 4, 5]);
}

#[test]
fn bubble_sort_test_empty() {
    let mut xs: [i32; 0] = [];
    bubble_sort(&mut xs);
    assert_eq!(xs, []);
}

#[test]
fn bubble_sort_test_one_element() {
    let mut xs = [4];
    bubble_sort(&mut xs);
    assert_eq!(xs, [4]);
}

#[test]
fn bucket_sort_test_sort() {
    let mut xs = [4, 5, 1, 2, 4];
    bucket_sort(&mut xs);
    assert_eq!(xs, [1, 2, 4, 4, 5]);
}

#[test]
fn bucket_sort_test_empty() {
    let mut xs: [usize; 0] = [];
    bucket_sort(&mut xs);
    assert_eq!(xs, []);
}

#[test]
fn bucket_sort_test_one_element() {
    let mut xs = [4];
    bucket_sort(&mut xs);
    assert_eq!(xs, [4]);
}

#[test]
fn counting_sort_test_sort() {
    let mut xs = [4, 5, 1, 2, 4];
    counting_sort(&mut xs);
    assert_eq!(xs, [1, 2, 4, 4, 5]);
}

#[test]
fn counting_sort_test_empty() {
    let mut xs: [usize; 0] = [];
    counting_sort(&mut xs);
    assert_eq!(xs, []);
}

#[test]
fn counting_sort_test_one_element() {
    let mut xs = [4];
    counting_sort(&mut xs);
    assert_eq!(xs, [4]);
}

#[test]
fn heap_sort_test_sort() {
    let mut xs = [4, 5, 1, 2, 4];
    heap_sort(&mut xs);
    assert_eq!(xs, [1, 2, 4, 4, 5]);
}

#[test]
fn heap_sort_test_empty() {
    let mut xs: [i32; 0] = [];
    heap_sort(&mut xs);
    assert_eq!(xs, []);
}

#[test]
fn heap_sort_test_one_element() {
    let mut xs = [4];
    heap_sort(&mut xs);
    assert_eq!(xs, [4]);
}

#[test]
fn insert_sort_test_sort() {
    let mut xs = [4, 5, 1, 2, 4];
    insert_sort(&mut xs);
    assert_eq!(xs, [1, 2, 4, 4, 5]);
}

#[test]
fn insert_sort_test_empty() {
    let mut xs: [i32; 0] = [];
    insert_sort(&mut xs);
    assert_eq!(xs, []);
}

#[test]
fn insert_sort_test_one_element() {
    let mut xs = [4];
    insert_sort(&mut xs);
    assert_eq!(xs, [4]);
}

#[test]
fn test_odd_sort() {
    let mut xs = [4, 5, 1, 2, 4];
    merge_sort(&mut xs);
    assert_eq!(xs, [1, 2, 4, 4, 5]);
}

#[test]
fn test_even_sort() {
    let mut xs = [4, 5, 1, 2, 4, 2];
    merge_sort(&mut xs);
    assert_eq!(xs, [1, 2, 2, 4, 4, 5]);
}

#[test]
fn merge_sort_test_empty() {
    let mut xs: [i32; 0] = [];
    merge_sort(&mut xs);
    assert_eq!(xs, []);
}

#[test]
fn merge_sort_test_one_element() {
    let mut xs = [4];
    merge_sort(&mut xs);
    assert_eq!(xs, [4]);
}

#[test]
fn quick_sort_test_sort() {
    let mut xs = [4, 5, 1, 2, 4];
    quick_sort(&mut xs);
    assert_eq!(xs, [1, 2, 4, 4, 5]);
}

#[test]
fn quick_sort_test_empty() {
    let mut xs: [i32; 0] = [];
    quick_sort(&mut xs);
    assert_eq!(xs, []);
}

#[test]
fn quick_sort_test_one_element() {
    let mut xs = [4];
    quick_sort(&mut xs);
    assert_eq!(xs, [4]);
}

#[test]
fn radix_sort_test_sort() {
    let mut xs = [73, 22, 93, 43, 55, 14, 28, 65, 39, 81];
    radix_sort(&mut xs);
    assert_eq!(xs, [14, 22, 28, 39, 43, 55, 65, 73, 81, 93]);
}

#[test]
fn radix_sort_test_empty() {
    let mut xs: [usize; 0] = [];
    radix_sort(&mut xs);
    assert_eq!(xs, []);
}

#[test]
fn radix_sort_test_one_element() {
    let mut xs = [4];
    radix_sort(&mut xs);
    assert_eq!(xs, [4]);
}

#[test]
fn selection_sort_test_sort() {
    let mut xs = [4, 5, 1, 2, 4];
    selection_sort(&mut xs);
    assert_eq!(xs, [1, 2, 4, 4, 5]);
}

#[test]
fn selection_sort_test_empty() {
    let mut xs: [i32; 0] = [];
    selection_sort(&mut xs);
    assert_eq!(xs, []);
}

#[test]
fn selection_sort_test_one_element() {
    let mut xs = [4];
    selection_sort(&mut xs);
    assert_eq!(xs, [4]);
}

#[test]
fn shell_sort_test_sort() {
    let mut xs = [4, 5, 1, 2, 4];
    shell_sort(&mut xs);
    assert_eq!(xs, [1, 2, 4, 4, 5]);
}

#[test]
fn shell_sort_test_empty() {
    let mut xs: [i32; 0] = [];
    shell_sort(&mut xs);
    assert_eq!(xs, []);
}

#[test]
fn shell_sort_test_one_element() {
    let mut xs = [4];
    shell_sort(&mut xs);
    assert_eq!(xs, [4]);
}

#[test]
fn sorts_agree_on_mixed_input() {
    let input = [9, -3, 7, 7, 0, -3, 12, 5, 1, 8, -20, 4];
    let expected = [-20, -3, -3, 0, 1, 4, 5, 7, 7, 8, 9, 12];
    let sorts: [fn(&mut [i32]); 7] = [
        bubble_sort::<i32>,
        heap_sort::<i32>,
        insert_sort::<i32>,
        merge_sort::<i32>,
        quick_sort::<i32>,
        selection_sort::<i32>,
        shell_sort::<i32>,
    ];
    for sort in sorts.iter() {
        let mut xs = input;
        sort(&mut xs);
        assert_eq!(xs, expected);
    }
}

#[test]
fn shell_sort_small_rising_then_falling() {
    let mut xs = [2, 3, 1];
    shell_sort(&mut xs);
    assert_eq!(xs, [1, 2, 3]);
}

#[test]
fn quick_sort_already_sorted() {
    let mut xs = [1, 2];
    quick_sort(&mut xs);
    assert_eq!(xs, [1, 2]);
    let mut ys = [1, 2, 3, 4, 5, 6];
    quick_sort(&mut ys);
    assert_eq!(ys, [1, 2, 3, 4, 5, 6]);
}

#[test]
fn radix_sort_powers_of_ten() {
    let mut xs = [10, 5];
    radix_sort(&mut xs);
    assert_eq!(xs, [5, 10]);
    let mut ys = [1, 0];
    radix_sort(&mut ys);
    assert_eq!(ys, [0, 1]);
    let mut zs = [1000, 7, 100, 70, 0];
    radix_sort(&mut zs);
    assert_eq!(zs, [0, 7, 70, 100, 1000]);
}

#[test]
fn integer_sorts_with_repeats() {
    let input = [3, 0, 3, 11, 6, 2, 0, 9];
    let expected = [0, 0, 2, 3, 3, 6, 9, 11];
    let mut a = input;
    counting_sort(&mut a);
    assert_eq!(a, expected);
    let mut b = input;
    bucket_sort(&mut b);
    assert_eq!(b, expected);
    let mut c = input;
    radix_sort(&mut c);
    assert_eq!(c, expected);
}
