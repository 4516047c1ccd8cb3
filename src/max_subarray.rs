//! The contiguous part of a sequence of integers with the largest sum.
use vstd::prelude::*;

verus! {

/// The sum of `s[i..j]`.
pub open spec fn range_sum(s: Seq<i32>, i: int, j: int) -> int
    decreases j - i,
{
    if j <= i {
        0
    } else {
        range_sum(s, i, j - 1) + s[j - 1]
    }
}

/// Every sum of a contiguous part fits in an `i32`.
pub open spec fn sums_fit(s: Seq<i32>) -> bool {
    forall|i: int, j: int|
        0 <= i <= j <= s.len() ==> i32::MIN <= #[trigger] range_sum(s, i, j) <= i32::MAX
}

/// `(l, r, sum)` names a part `s[l..=r]` of largest sum.
pub open spec fn is_max_subarray(s: Seq<i32>, r: (usize, usize, i32)) -> bool {
    &&& r.0 <= r.1 < s.len()
    &&& r.2 == range_sum(s, r.0 as int, r.1 + 1)
    &&& forall|i: int, j: int| 0 <= i <= j < s.len() ==> #[trigger] range_sum(s, i, j + 1) <= r.2
}

/// The sum of a part of one element is that element.
pub proof fn lemma_range_sum_one(s: Seq<i32>, a: int)
    ensures
        range_sum(s, a, a + 1) == s[a],
{
    reveal_with_fuel(range_sum, 2);
}

/// Sums of adjacent parts add up.
pub proof fn lemma_range_sum_split(s: Seq<i32>, a: int, b: int, c: int)
    requires
        a <= b <= c,
    ensures
        range_sum(s, a, b) + range_sum(s, b, c) == range_sum(s, a, c),
    decreases c - b,
{
    if b < c {
        lemma_range_sum_split(s, a, b, c - 1);
    }
}

/// A part of largest sum, found by splitting in halves.
pub fn find_max_subarray_recursive(xs: &[i32]) -> (r: (usize, usize, i32))
    requires
        xs@.len() > 0,
        sums_fit(xs@),
    ensures
        is_max_subarray(xs@, r),
{
    find_max_subarray_recursive_2(xs, 0, xs.len() - 1)
}

fn find_max_subarray_recursive_2(xs: &[i32], low: usize, high: usize) -> (r: (usize, usize, i32))
    requires
        low <= high < xs@.len(),
        sums_fit(xs@),
    ensures
        low <= r.0 <= r.1 <= high,
        r.2 == range_sum(xs@, r.0 as int, r.1 + 1),
        forall|i: int, j: int| low <= i <= j <= high ==> #[trigger] range_sum(xs@, i, j + 1) <= r.2,
    decreases high - low,
{
    if high <= low {
        proof {
            lemma_range_sum_one(xs@, low as int);
        }
        return (low, high, xs[low]);
    }
    let mid = low + (high - low) / 2;
    let (left_low, left_high, left_sum) = find_max_subarray_recursive_2(xs, low, mid);
    let (right_low, right_high, right_sum) = find_max_subarray_recursive_2(xs, mid + 1, high);
    let (cross_low, cross_high, cross_sum) = find_max_crossing_subarray(xs, low, mid, high);
    if left_sum >= right_sum && left_sum >= cross_sum {
        (left_low, left_high, left_sum)
    } else if right_sum >= left_sum && right_sum >= cross_sum {
        (right_low, right_high, right_sum)
    } else {
        (cross_low, cross_high, cross_sum)
    }
}

/// The part of largest sum among those that hold both `mid` and `mid + 1`.
fn find_max_crossing_subarray(xs: &[i32], low: usize, mid: usize, high: usize) -> (r: (
    usize,
    usize,
    i32,
))
    requires
        low <= mid < high < xs@.len(),
        sums_fit(xs@),
    ensures
        low <= r.0 <= mid < r.1 <= high,
        r.2 == range_sum(xs@, r.0 as int, r.1 + 1),
        forall|i: int, j: int|
            low <= i <= mid < j <= high ==> #[trigger] range_sum(xs@, i, j + 1) <= r.2,
{
    let ghost s = xs@;
    let mut max_left: usize = mid;
    let mut sum: i32 = xs[mid];
    let mut left_sum: i32 = sum;
    let mut i: usize = mid;
    proof {
        lemma_range_sum_one(s, mid as int);
    }
    while i > low
        invariant
            s == xs@,
            low <= i <= mid,
            mid < high < s.len(),
            sums_fit(s),
            sum == range_sum(s, i as int, mid + 1),
            i <= max_left <= mid,
            left_sum == range_sum(s, max_left as int, mid + 1),
            forall|k: int| i <= k <= mid ==> #[trigger] range_sum(s, k, mid + 1) <= left_sum,
        decreases i,
    {
        i = i - 1;
        proof {
            lemma_range_sum_split(s, i as int, i + 1, mid + 1);
            lemma_range_sum_one(s, i as int);
            assert(range_sum(s, i as int, mid + 1) == s[i as int] + sum);
        }
        sum = xs[i] + sum;
        if sum > left_sum {
            left_sum = sum;
            max_left = i;
        }
    }
    let mut max_right: usize = mid + 1;
    sum = xs[mid + 1];
    let mut right_sum: i32 = sum;
    let mut j: usize = mid + 2;
    proof {
        lemma_range_sum_one(s, mid + 1);
    }
    while j <= high
        invariant
            s == xs@,
            mid + 1 < j <= high + 1,
            high < s.len(),
            sums_fit(s),
            sum == range_sum(s, mid + 1, j as int),
            mid < max_right < j,
            right_sum == range_sum(s, mid + 1, max_right + 1),
            forall|k: int| mid < k < j ==> #[trigger] range_sum(s, mid + 1, k + 1) <= right_sum,
        decreases high + 1 - j,
    {
        proof {
            assert(range_sum(s, mid + 1, j + 1) == sum + s[j as int]);
        }
        sum = sum + xs[j];
        if sum > right_sum {
            right_sum = sum;
            max_right = j;
        }
        j = j + 1;
    }
    proof {
        lemma_range_sum_split(s, max_left as int, mid + 1, max_right + 1);
        assert forall|a: int, b: int| low <= a <= mid < b <= high implies #[trigger] range_sum(s, a, b + 1)
            <= left_sum + right_sum by {
            lemma_range_sum_split(s, a, mid + 1, b + 1);
            assert(range_sum(s, a, mid + 1) <= left_sum);
            assert(range_sum(s, mid + 1, b + 1) <= right_sum);
        }
    }
    (max_left, max_right, left_sum + right_sum)
}

/// A part of largest sum, found in one pass: the best part that ends at each
/// index extends the best one that ends just before it, unless that one has
/// a negative sum.
pub fn find_max_subarray_iterative(xs: &[i32]) -> (r: (usize, usize, i32))
    requires
        xs@.len() > 0,
        sums_fit(xs@),
    ensures
        is_max_subarray(xs@, r),
{
    let ghost s = xs@;
    let n = xs.len();
    let mut left: usize = 0;
    let mut right: usize = 0;
    let mut sum: i32 = xs[0];
    let mut temp_left: usize = 0;
    let mut temp_sum: i32 = 0;
    let mut i: usize = 0;
    proof {
        lemma_range_sum_one(s, 0);
    }
    while i < n
        invariant
            s == xs@,
            n == s.len(),
            n > 0,
            sums_fit(s),
            i <= n,
            temp_left <= i,
            temp_sum == range_sum(s, temp_left as int, i as int),
            temp_sum >= 0,
            forall|k: int| 0 <= k <= i ==> #[trigger] range_sum(s, k, i as int) <= temp_sum,
            left <= right < n,
            right < i || (i == 0 && right == 0),
            sum == range_sum(s, left as int, right + 1),
            forall|a: int, b: int| 0 <= a <= b < i ==> #[trigger] range_sum(s, a, b + 1) <= sum,
        decreases n - i,
    {
        proof {
            assert forall|k: int| 0 <= k <= i implies #[trigger] range_sum(s, k, i + 1) == range_sum(s, k, i as int) + s[i as int] by {
            }
            assert(range_sum(s, temp_left as int, i + 1) == temp_sum + s[i as int]);
        }
        temp_sum = temp_sum + xs[i];
        if temp_sum > sum {
            sum = temp_sum;
            left = temp_left;
            right = i;
        }
        if temp_sum < 0 {
            temp_sum = 0;
            temp_left = i + 1;
        }
        i = i + 1;
        proof {
            assert forall|a: int, b: int| 0 <= a <= b < i implies #[trigger] range_sum(s, a, b + 1) <= sum by {
                if b == i - 1 {
                    assert(range_sum(s, a, i as int) <= range_sum(s, a, i - 1) + s[i - 1]);
                }
            }
        }
    }
    (left, right, sum)
}

} // verus!
