use quick_sort::quick_sort_buffer;
use quick_sort::quick_sort_slice;

fn is_ascending_slice(xs: &[i64]) -> bool {
    xs.windows(2).all(|w| w[0] <= w[1])
}

/// A small deterministic xorshift generator, used to build pseudo-random
/// test inputs.
fn xorshift_values(seed: u64, n: usize) -> Vec<i64> {
    let mut state = seed;
    let mut out: Vec<i64> = Vec::with_capacity(n);
    for _ in 0..n {
        state ^= state << 13;
        state ^= state >> 7;
        state ^= state << 17;
        out.push((state >> 1) as i64);
    }
    out
}

#[test]
fn test_quick_sort_slice_1() {
    let mut x: Vec<i64> = vec![1, 2, 3, 4, 5];
    quick_sort_slice(&mut x);
    assert!(is_ascending_slice(&x));
}

#[test]
fn test_quick_sort_slice_2() {
    let mut x: Vec<i64> = vec![5, 4, 3, 2, 1];
    quick_sort_slice(&mut x);
    assert!(is_ascending_slice(&x));
}

#[test]
fn test_quick_sort_buffer_1() {
    let mut x: Vec<i64> = vec![1, 2, 3, 4, 5];
    let n = x.len();
    quick_sort_buffer(&mut x, n);
    assert!(is_ascending_slice(&x));
}

#[test]
fn test_quick_sort_buffer_2() {
    let mut x: Vec<i64> = vec![5, 4, 3, 2, 1];
    let n = x.len();
    quick_sort_buffer(&mut x, n);
    assert!(is_ascending_slice(&x));
}

#[test]
fn test_quick_sort_buffer_reverse_large() {
    let mut v = (0..10000).map(|idx| 20000 - idx).collect::<Vec<i64>>();
    let n = v.len();
    quick_sort_buffer(&mut v, n);
    assert!(is_ascending_slice(v.as_slice()));
}

#[test]
fn test_quick_sort_buffer_random_data() {
    let mut v = xorshift_values(0x9E3779B97F4A7C15, 10000);
    let n = v.len();
    quick_sort_buffer(&mut v, n);
    assert!(is_ascending_slice(v.as_slice()));
}

#[test]
fn test_sorted_input_unchanged() {
    let mut x: Vec<i64> = vec![1, 2, 3, 4, 5];
    quick_sort_slice(&mut x);
    assert_eq!(x, vec![1, 2, 3, 4, 5]);
}

#[test]
fn test_reverse_input_exact() {
    let mut x: Vec<i64> = vec![5, 4, 3, 2, 1];
    quick_sort_slice(&mut x);
    assert_eq!(x, vec![1, 2, 3, 4, 5]);
}

#[test]
fn test_empty_input() {
    let mut x: Vec<i64> = vec![];
    quick_sort_slice(&mut x);
    assert_eq!(x, Vec::<i64>::new());
    let mut y: Vec<i64> = vec![];
    quick_sort_buffer(&mut y, 0);
    assert_eq!(y, Vec::<i64>::new());
}

#[test]
fn test_single_element() {
    let mut x: Vec<i64> = vec![3];
    quick_sort_slice(&mut x);
    assert_eq!(x, vec![3]);
    let mut y: Vec<i64> = vec![3];
    quick_sort_buffer(&mut y, 1);
    assert_eq!(y, vec![3]);
}

#[test]
fn test_duplicate_heavy() {
    let mut x: Vec<i64> = vec![5, 5, 3, 3, 1];
    quick_sort_slice(&mut x);
    assert_eq!(x, vec![1, 3, 3, 5, 5]);
    let mut y: Vec<i64> = vec![5, 5, 3, 3, 1];
    let n = y.len();
    quick_sort_buffer(&mut y, n);
    assert_eq!(y, vec![1, 3, 3, 5, 5]);
}

#[test]
fn test_all_equal_elements() {
    let mut x: Vec<i64> = vec![7; 10];
    quick_sort_slice(&mut x);
    assert_eq!(x, vec![7; 10]);
}

#[test]
fn test_duplicates_interspersed() {
    let mut x: Vec<i64> = vec![2, 9, 2, 7, 2, 9, 1, 2, 9, 7, 1];
    quick_sort_slice(&mut x);
    assert_eq!(x, vec![1, 1, 2, 2, 2, 2, 7, 7, 9, 9, 9]);
}

#[test]
fn test_negative_values() {
    let mut x: Vec<i64> = vec![0, -5, 8, -5, 3, -9];
    quick_sort_slice(&mut x);
    assert_eq!(x, vec![-9, -5, -5, 0, 3, 8]);
}

#[test]
fn test_variants_agree() {
    let data = xorshift_values(42, 500);
    let mut a = data.clone();
    quick_sort_slice(&mut a);
    let mut b = data.clone();
    let n = b.len();
    quick_sort_buffer(&mut b, n);
    assert_eq!(a, b);
}

#[test]
fn test_permutation_of_input() {
    let data = xorshift_values(7, 10000);
    let mut ours = data.clone();
    quick_sort_slice(&mut ours);
    let mut expected = data.clone();
    expected.sort();
    assert_eq!(ours, expected);
}

#[test]
fn test_idempotence() {
    let data = xorshift_values(99, 300);
    let mut once = data.clone();
    quick_sort_slice(&mut once);
    let mut twice = once.clone();
    quick_sort_slice(&mut twice);
    assert_eq!(twice, once);
}

#[test]
fn test_buffer_sorts_prefix_only() {
    let mut x: Vec<i64> = vec![9, 4, 6, 2, 50, 1, 0];
    quick_sort_buffer(&mut x, 4);
    assert_eq!(x, vec![2, 4, 6, 9, 50, 1, 0]);
}
