pub mod bubble_sort;
pub mod bucket_sort;
pub mod counting_sort;
pub mod deque;
pub mod heap_order;
pub mod heap_sort;
pub mod insert_sort;
pub mod linked_deque;
pub mod max_heap;
pub mod max_subarray;
pub mod merge_sort;
pub mod min_heap;
pub mod order;
pub mod quick_sort;
pub mod radix_sort;
pub mod red_black_tree;
pub mod selection_sort;
pub mod shell_sort;
pub mod stack;
pub mod two_sum;
