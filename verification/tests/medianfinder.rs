use load_balancer::medianfinder::MedianFinder;
use rand::Rng;

#[test]
fn test_empty_median_finder() {
    let median_finder = MedianFinder::new();
    assert_eq!(median_finder.find_median(), None);
}

#[test]
fn test_single_element() {
    let mut median_finder = MedianFinder::new();
    median_finder.add_latency(5);
    assert_eq!(median_finder.find_median(), Some(5));
}

#[test]
fn test_two_elements() {
    let mut median_finder = MedianFinder::new();
    median_finder.add_latency(5);
    median_finder.add_latency(10);
    assert_eq!(median_finder.find_median(), Some(7)); // (5 + 10) / 2 = 7
}

#[test]
fn test_odd_number_of_elements() {
    let mut median_finder = MedianFinder::new();
    median_finder.add_latency(1);
    median_finder.add_latency(2);
    median_finder.add_latency(3);
    assert_eq!(median_finder.find_median(), Some(2)); // Middle element
}

#[test]
fn test_even_number_of_elements() {
    let mut median_finder = MedianFinder::new();
    median_finder.add_latency(1);
    median_finder.add_latency(2);
    median_finder.add_latency(3);
    median_finder.add_latency(4);
    assert_eq!(median_finder.find_median(), Some(2)); // (2 + 3) / 2 = 2
}

#[test]
fn test_large_numbers() {
    let mut median_finder = MedianFinder::new();
    median_finder.add_latency(1_000_000_000);
    median_finder.add_latency(2_000_000_000);
    median_finder.add_latency(3_000_000_000);
    assert_eq!(median_finder.find_median(), Some(2_000_000_000)); // Middle element
}

#[test]
fn test_duplicate_elements() {
    let mut median_finder = MedianFinder::new();
    median_finder.add_latency(5);
    median_finder.add_latency(5);
    median_finder.add_latency(5);
    assert_eq!(median_finder.find_median(), Some(5)); // All elements are the same
}

#[test]
fn test_large_even_number_of_elements() {
    let mut median_finder = MedianFinder::new();
    for i in 1..=100 {
        median_finder.add_latency(i);
    }
    assert_eq!(median_finder.find_median(), Some(50)); // (50 + 51) / 2 = 50
}

#[test]
fn test_large_odd_number_of_elements() {
    let mut median_finder = MedianFinder::new();
    for i in 1..=101 {
        median_finder.add_latency(i);
    }
    assert_eq!(median_finder.find_median(), Some(51)); // Middle element
}

#[test]
fn test_random_order() {
    let mut median_finder = MedianFinder::new();
    median_finder.add_latency(10);
    median_finder.add_latency(1);
    median_finder.add_latency(5);
    median_finder.add_latency(3);
    median_finder.add_latency(7);
    assert_eq!(median_finder.find_median(), Some(5)); // Sorted: [1, 3, 5, 7, 10]
}

#[test]
fn test_all_elements_same() {
    let mut median_finder = MedianFinder::new();
    for _ in 0..100 {
        median_finder.add_latency(42);
    }
    assert_eq!(median_finder.find_median(), Some(42)); // All elements are 42
}

#[test]
fn test_interleaved_elements() {
    let mut median_finder = MedianFinder::new();
    median_finder.add_latency(1);
    median_finder.add_latency(100);
    median_finder.add_latency(2);
    median_finder.add_latency(99);
    median_finder.add_latency(3);
    median_finder.add_latency(98);
    assert_eq!(median_finder.find_median(), Some(50)); // Sorted: [1, 2, 3, 98, 99, 100], median = (3 + 98) / 2 = 50
}

// The streaming median against an offline sort: after every insertion of a
// random sequence, `find_median` agrees with the median of the sorted
// multiset inserted so far.
#[test]
fn test_streaming_median_matches_offline_sort() {
    let mut rng = rand::thread_rng();
    let mut median_finder = MedianFinder::new();
    let mut sorted: Vec<u128> = Vec::new();
    for _ in 0..10_000 {
        let x: u64 = rng.gen_range(0..1_000_000);
        let x = x as u128;
        median_finder.add_latency(x);
        let pos = sorted.partition_point(|&e| e <= x);
        sorted.insert(pos, x);
        let n = sorted.len();
        let expected = if n % 2 == 1 {
            sorted[n / 2]
        } else {
            (sorted[n / 2 - 1] + sorted[n / 2]) / 2
        };
        assert_eq!(median_finder.find_median(), Some(expected));
    }
}
